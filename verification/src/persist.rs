use vstd::prelude::*;
use crate::text::{utf8, str_eq};
use crate::codec::escape;
use crate::keys::{join2, join3, edge_key, edge_data_key, lemma_join2_injective, lemma_join3_injective};
use crate::assoc::{has_key, key_index, pairs_map, distinct_keys, lemma_pairs_map_at};
use crate::props::{PropertyMap, Pair};
use crate::schema::{STATUS_KEY, STATUS_ACTIVE, STATUS_DELETED, TYPE_KEY, TYPE_BLOCK};
use crate::store::{Snapshot, WriteTable, snapshot_rows, table_rows, table_get};
use crate::index::{Rows, NodeRows, EdgeRows, node_rows_of, edge_rows_of, node_upsert, edge_upsert, node_upsert_all, edge_upsert_all, node_rows_coherent, edge_rows_coherent, put_node_row, put_edge_row, upsert_node_property, upsert_node_properties, upsert_edge_property, upsert_edge_properties, lemma_edge_upsert_all_coherent};
use crate::reads::has_node_row;
use crate::views::all_rows;
use crate::recovery::{edges_at, edges_marked_deleted, edges_touching, mark_edges_deleted, nodes_missing, edges_missing, nodes_with_status, edges_with_status, nodes_without_status, edges_without_status, node_backfill_all, edge_backfill_all, backfill_node_status, backfill_edge_status, node_entries_of_rows, edge_entries_of_rows, with_entries, snapshot_is_empty, index_entries_for_nodes, index_entries_for_edges, insert_entries};
use crate::service::{defaulted, is_block, mirror_properties, with_default_status, data_is_block};

verus! {

/// The properties of the edge that mirrors an edge which became a block
/// edge: the type `block` and the status `active`.
pub fn mirror_data() -> (data: PropertyMap)
    ensures
        data.pairs() == mirror_properties(),
{
    let mut data = PropertyMap::new();
    data.insert(TYPE_KEY.to_owned(), TYPE_BLOCK.to_owned());
    proof {
        assert(!has_key(data.pairs(), utf8(STATUS_KEY@))) by {
            if has_key(data.pairs(), utf8(STATUS_KEY@)) {
                let i = key_index(data.pairs(), utf8(STATUS_KEY@));
                reveal_strlit("status");
                reveal_strlit("type");
                assert(STATUS_KEY@.len() != TYPE_KEY@.len());
                crate::text::lemma_utf8_injective(STATUS_KEY@, TYPE_KEY@);
            }
        }
    }
    data.insert(STATUS_KEY.to_owned(), STATUS_ACTIVE.to_owned());
    proof {
        assert(data.pairs() =~= mirror_properties());
    }
    data
}

/// What is written for a node is what is read back: once properties are
/// written for a node, the property rows hold each of them under the key
/// made of the id and the key of the property.
pub proof fn lemma_node_properties_are_written(
    rows: NodeRows,
    id: Seq<u8>,
    pairs: Seq<Pair>,
    key: Seq<u8>,
)
    requires
        distinct_keys(pairs),
        has_key(pairs, key),
    ensures
        node_upsert_all(rows, id, pairs).data.contains_key(join2(id, key)),
        node_upsert_all(rows, id, pairs).data[join2(id, key)] == pairs_map(pairs)[key],
    decreases pairs.len(),
{
    let last = pairs.len() - 1;
    let at = key_index(pairs, key);
    lemma_pairs_map_at(pairs, at);
    if at < last {
        let less = pairs.drop_last();
        assert(less[at] == pairs[at]);
        assert(has_key(less, key));
        assert forall|i: int, j: int| 0 <= i < j < less.len() implies less[i].0 != less[j].0 by {
            assert(less[i] == pairs[i] && less[j] == pairs[j]);
        }
        lemma_node_properties_are_written(rows, id, less, key);
        lemma_pairs_map_at(less, at);
        if join2(id, pairs[last].0) == join2(id, key) {
            lemma_join2_injective(id, pairs[last].0, id, key);
        }
    }
}

/// What is written for an edge is what is read back: once properties are
/// written for an edge, the property rows hold each of them under the key
/// made of the two ends and the key of the property.
pub proof fn lemma_edge_properties_are_written(
    rows: EdgeRows,
    from: Seq<u8>,
    to: Seq<u8>,
    pairs: Seq<Pair>,
    key: Seq<u8>,
)
    requires
        distinct_keys(pairs),
        has_key(pairs, key),
    ensures
        edge_upsert_all(rows, from, to, pairs).data.contains_key(join3(from, to, key)),
        edge_upsert_all(rows, from, to, pairs).data[join3(from, to, key)] == pairs_map(pairs)[key],
    decreases pairs.len(),
{
    let last = pairs.len() - 1;
    let at = key_index(pairs, key);
    lemma_pairs_map_at(pairs, at);
    if at < last {
        let less = pairs.drop_last();
        assert(less[at] == pairs[at]);
        assert(has_key(less, key));
        assert forall|i: int, j: int| 0 <= i < j < less.len() implies less[i].0 != less[j].0 by {
            assert(less[i] == pairs[i] && less[j] == pairs[j]);
        }
        lemma_edge_properties_are_written(rows, from, to, less, key);
        lemma_pairs_map_at(less, at);
        if join3(from, to, pairs[last].0) == join3(from, to, key) {
            lemma_join3_injective(from, to, pairs[last].0, from, to, key);
        }
    }
}

/// Writes a node inside a write transaction: its row, and its properties
/// with the status `active` unless they have a status, with the entries of
/// both indexes.
pub fn write_node(
    nodes: &mut WriteTable<'_>,
    data: &mut WriteTable<'_>,
    index: &mut WriteTable<'_>,
    geo: &mut WriteTable<'_>,
    id: &str,
    payload: &PropertyMap,
) -> (r: Result<(), redb::Error>)
    ensures
        r is Ok ==> table_rows(final(nodes)) == table_rows(old(nodes)).insert(
            escape(utf8(id@)),
            Seq::<u8>::empty(),
        ),
        r is Ok ==> node_rows_of(final(data), final(index), final(geo)) == node_upsert_all(
            node_rows_of(old(data), old(index), old(geo)),
            utf8(id@),
            defaulted(payload.pairs()),
        ),
        r is Ok && node_rows_coherent(node_rows_of(old(data), old(index), old(geo)))
            ==> node_rows_coherent(node_rows_of(final(data), final(index), final(geo))),
{
    put_node_row(nodes, id)?;
    let full = with_default_status(payload.clone());
    upsert_node_properties(data, index, geo, id, &full)
}

/// The rows of the edge table once an edge has its row and, where `mirror`
/// holds, the edge in the other direction has its row too.
pub open spec fn with_edge_rows_of(edges: Rows, from: Seq<u8>, to: Seq<u8>, mirror: bool) -> Rows {
    let forward = edges.insert(join2(from, to), Seq::<u8>::empty());
    if mirror {
        forward.insert(join2(to, from), Seq::<u8>::empty())
    } else {
        forward
    }
}

/// The edge rows once an edge has the properties `pairs` and, where there
/// is a mirror, the edge in the other direction has the properties of the
/// mirror.
pub open spec fn edge_rows_linked(
    rows: EdgeRows,
    from: Seq<u8>,
    to: Seq<u8>,
    pairs: Seq<Pair>,
    mirror: Option<Seq<Pair>>,
) -> EdgeRows {
    let forward = edge_upsert_all(rows, from, to, pairs);
    match mirror {
        Some(reverse) => edge_upsert_all(forward, to, from, reverse),
        None => forward,
    }
}

/// Index coherence: writing an edge and its mirror keeps the index coherent
/// with the property rows.
pub proof fn lemma_edge_rows_linked_coherent(
    rows: EdgeRows,
    from: Seq<u8>,
    to: Seq<u8>,
    pairs: Seq<Pair>,
    mirror: Option<Seq<Pair>>,
)
    requires
        edge_rows_coherent(rows),
    ensures
        edge_rows_coherent(edge_rows_linked(rows, from, to, pairs, mirror)),
{
    lemma_edge_upsert_all_coherent(rows, from, to, pairs);
    if let Some(reverse) = mirror {
        lemma_edge_upsert_all_coherent(edge_upsert_all(rows, from, to, pairs), to, from, reverse);
    }
}

/// Writing properties for an edge leaves the property rows of every other
/// edge as they are.
pub proof fn lemma_other_edges_keep_their_rows(
    rows: EdgeRows,
    from: Seq<u8>,
    to: Seq<u8>,
    pairs: Seq<Pair>,
    a: Seq<u8>,
    b: Seq<u8>,
    key: Seq<u8>,
)
    requires
        (a, b) != (from, to),
    ensures
        edge_upsert_all(rows, from, to, pairs).data.contains_key(join3(a, b, key))
            == rows.data.contains_key(join3(a, b, key)),
        rows.data.contains_key(join3(a, b, key)) ==> edge_upsert_all(
            rows,
            from,
            to,
            pairs,
        ).data[join3(a, b, key)] == rows.data[join3(a, b, key)],
    decreases pairs.len(),
{
    if pairs.len() > 0 {
        lemma_other_edges_keep_their_rows(rows, from, to, pairs.drop_last(), a, b, key);
        if join3(from, to, pairs.last().0) == join3(a, b, key) {
            lemma_join3_injective(from, to, pairs.last().0, a, b, key);
        }
    }
}

/// Block symmetry in the store: once a block edge between two different
/// nodes is written with its mirror, the property rows hold each property
/// of the payload for both directions, with the same value.
pub proof fn lemma_block_rows_mirror(
    rows: EdgeRows,
    from: Seq<u8>,
    to: Seq<u8>,
    pairs: Seq<Pair>,
    key: Seq<u8>,
)
    requires
        from != to,
        distinct_keys(pairs),
        has_key(pairs, key),
    ensures
        ({
            let both = edge_rows_linked(rows, from, to, pairs, Some(pairs));
            &&& both.data.contains_key(join3(from, to, key))
            &&& both.data.contains_key(join3(to, from, key))
            &&& both.data[join3(from, to, key)] == pairs_map(pairs)[key]
            &&& both.data[join3(to, from, key)] == pairs_map(pairs)[key]
        }),
{
    let forward = edge_upsert_all(rows, from, to, pairs);
    lemma_edge_properties_are_written(rows, from, to, pairs, key);
    lemma_edge_properties_are_written(forward, to, from, pairs, key);
    lemma_other_edges_keep_their_rows(forward, to, from, pairs, from, to, key);
}

/// Block symmetry in the store: once an edge between two different nodes
/// is marked as deleted in both directions, the property rows hold the
/// status `deleted` for both.
pub proof fn lemma_block_rows_deleted(rows: EdgeRows, from: Seq<u8>, to: Seq<u8>)
    requires
        from != to,
    ensures
        ({
            let both = edge_rows_deleted(rows, from, to, true);
            &&& both.data.contains_key(join3(from, to, utf8(STATUS_KEY@)))
            &&& both.data.contains_key(join3(to, from, utf8(STATUS_KEY@)))
            &&& both.data[join3(from, to, utf8(STATUS_KEY@))] == utf8(STATUS_DELETED@)
            &&& both.data[join3(to, from, utf8(STATUS_KEY@))] == utf8(STATUS_DELETED@)
        }),
{
    let status = utf8(STATUS_KEY@);
    if join3(to, from, status) == join3(from, to, status) {
        lemma_join3_injective(to, from, status, from, to, status);
    }
}

/// The properties become those of a block edge between two different
/// nodes, which is kept in both directions.
pub open spec fn is_mirrored(pairs: Seq<Pair>, from: Seq<u8>, to: Seq<u8>) -> bool {
    is_block(pairs_map(pairs)) && from != to
}

/// Writes an edge inside a write transaction: its row, and its properties
/// with the status `active` unless they have a status, with the index
/// entries. An edge of type `block` between two different nodes is written
/// in both directions, with the same properties.
pub fn write_edge(
    edges: &mut WriteTable<'_>,
    data: &mut WriteTable<'_>,
    index: &mut WriteTable<'_>,
    from: &str,
    to: &str,
    payload: &PropertyMap,
) -> (r: Result<(), redb::Error>)
    ensures
        r is Ok ==> table_rows(final(edges)) == with_edge_rows_of(
            table_rows(old(edges)),
            utf8(from@),
            utf8(to@),
            is_mirrored(defaulted(payload.pairs()), utf8(from@), utf8(to@)),
        ),
        r is Ok ==> edge_rows_of(final(data), final(index)) == edge_rows_linked(
            edge_rows_of(old(data), old(index)),
            utf8(from@),
            utf8(to@),
            defaulted(payload.pairs()),
            if is_mirrored(defaulted(payload.pairs()), utf8(from@), utf8(to@)) {
                Some(defaulted(payload.pairs()))
            } else {
                None
            },
        ),
        r is Ok && edge_rows_coherent(edge_rows_of(old(data), old(index))) ==> edge_rows_coherent(
            edge_rows_of(final(data), final(index)),
        ),
{
    let full = with_default_status(payload.clone());
    put_edge_row(edges, from, to)?;
    upsert_edge_properties(data, index, from, to, &full)?;
    if data_is_block(&full) && !str_eq(from, to) {
        put_edge_row(edges, to, from)?;
        upsert_edge_properties(data, index, to, from, &full)?;
    }
    Ok(())
}

/// The mirror that setting one property of an edge asks for: where the
/// property makes it a block edge between two different nodes, the type
/// `block` and the status `active`.
pub open spec fn property_mirror(from: Seq<u8>, to: Seq<u8>, key: Seq<u8>, value: Seq<u8>) -> Option<
    Seq<Pair>,
> {
    if key == utf8(TYPE_KEY@) && value == utf8(TYPE_BLOCK@) && from != to {
        Some(mirror_properties())
    } else {
        None
    }
}

/// Sets a property of an edge inside a write transaction, with its index
/// entry. Where the property makes the edge a block edge between two
/// different nodes, the edge in the other direction gets its row, the type
/// `block` and the status `active`.
pub fn write_edge_property(
    edges: &mut WriteTable<'_>,
    data: &mut WriteTable<'_>,
    index: &mut WriteTable<'_>,
    from: &str,
    to: &str,
    key: &str,
    value: &str,
) -> (r: Result<(), redb::Error>)
    ensures
        r is Ok ==> table_rows(final(edges)) == if property_mirror(
            utf8(from@),
            utf8(to@),
            utf8(key@),
            utf8(value@),
        ) is Some {
            table_rows(old(edges)).insert(join2(utf8(to@), utf8(from@)), Seq::<u8>::empty())
        } else {
            table_rows(old(edges))
        },
        r is Ok ==> edge_rows_of(final(data), final(index)) == edge_rows_linked(
            edge_rows_of(old(data), old(index)),
            utf8(from@),
            utf8(to@),
            seq![(utf8(key@), utf8(value@))],
            property_mirror(utf8(from@), utf8(to@), utf8(key@), utf8(value@)),
        ),
        r is Ok && edge_rows_coherent(edge_rows_of(old(data), old(index))) ==> edge_rows_coherent(
            edge_rows_of(final(data), final(index)),
        ),
{
    let ghost before = edge_rows_of(data, index);
    proof {
        let one = seq![(utf8(key@), utf8(value@))];
        assert(one.drop_last() =~= Seq::<Pair>::empty());
        assert(one.last() == (utf8(key@), utf8(value@)));
        assert(edge_upsert_all(before, utf8(from@), utf8(to@), Seq::<Pair>::empty()) == before);
        assert(edge_upsert_all(before, utf8(from@), utf8(to@), one) == edge_upsert(
            before,
            utf8(from@),
            utf8(to@),
            utf8(key@),
            utf8(value@),
        ));
    }
    upsert_edge_property(data, index, from, to, key, value)?;
    if str_eq(key, TYPE_KEY) && str_eq(value, TYPE_BLOCK) && !str_eq(from, to) {
        let reverse = mirror_data();
        put_edge_row(edges, to, from)?;
        upsert_edge_properties(data, index, to, from, &reverse)?;
    }
    Ok(())
}

/// The mirror that merging properties into an edge asks for: where they
/// make it a block edge between two different nodes, the same properties,
/// with the status `active` unless they have a status.
pub open spec fn patch_mirror(from: Seq<u8>, to: Seq<u8>, pairs: Seq<Pair>) -> Option<Seq<Pair>> {
    if is_mirrored(pairs, from, to) {
        Some(defaulted(pairs))
    } else {
        None
    }
}

/// Merges properties into an edge inside a write transaction, with their
/// index entries. Where they make the edge a block edge between two
/// different nodes, the edge in the other direction gets its row and the
/// same properties, with the status `active` unless they have a status.
pub fn write_edge_properties(
    edges: &mut WriteTable<'_>,
    data: &mut WriteTable<'_>,
    index: &mut WriteTable<'_>,
    from: &str,
    to: &str,
    properties: &PropertyMap,
) -> (r: Result<(), redb::Error>)
    ensures
        r is Ok ==> table_rows(final(edges)) == if patch_mirror(
            utf8(from@),
            utf8(to@),
            properties.pairs(),
        ) is Some {
            table_rows(old(edges)).insert(join2(utf8(to@), utf8(from@)), Seq::<u8>::empty())
        } else {
            table_rows(old(edges))
        },
        r is Ok ==> edge_rows_of(final(data), final(index)) == edge_rows_linked(
            edge_rows_of(old(data), old(index)),
            utf8(from@),
            utf8(to@),
            properties.pairs(),
            patch_mirror(utf8(from@), utf8(to@), properties.pairs()),
        ),
        r is Ok && edge_rows_coherent(edge_rows_of(old(data), old(index))) ==> edge_rows_coherent(
            edge_rows_of(final(data), final(index)),
        ),
{
    upsert_edge_properties(data, index, from, to, properties)?;
    if data_is_block(properties) && !str_eq(from, to) {
        let reverse = with_default_status(properties.clone());
        put_edge_row(edges, to, from)?;
        upsert_edge_properties(data, index, to, from, &reverse)?;
    }
    Ok(())
}

/// The stored type of an edge is `block`.
pub open spec fn stored_block(data: Rows, from: Seq<u8>, to: Seq<u8>) -> bool {
    data.contains_key(join3(from, to, utf8(TYPE_KEY@))) && data[join3(from, to, utf8(TYPE_KEY@))]
        == utf8(TYPE_BLOCK@)
}

/// The edge rows once an edge has the status `deleted` and, where `both`
/// holds, the edge in the other direction has it too.
pub open spec fn edge_rows_deleted(rows: EdgeRows, from: Seq<u8>, to: Seq<u8>, both: bool) -> EdgeRows {
    let one = edge_upsert(rows, from, to, utf8(STATUS_KEY@), utf8(STATUS_DELETED@));
    if both {
        edge_upsert(one, to, from, utf8(STATUS_KEY@), utf8(STATUS_DELETED@))
    } else {
        one
    }
}

/// Whether the value read under the type of an edge is `block`.
pub fn is_block_type(stored: &Option<String>) -> (r: bool)
    ensures
        r == match *stored {
            Some(kind) => utf8(kind@) == utf8(TYPE_BLOCK@),
            None => false,
        },
{
    match stored {
        Some(kind) => str_eq(kind.as_str(), TYPE_BLOCK),
        None => false,
    }
}

/// Marks an edge as deleted inside a write transaction. Without a row of
/// the edge nothing is written and the result is `None`. Else the edge gets
/// the status `deleted`; where its stored type is `block`, or `always_both`
/// holds, and its ends differ, the edge in the other direction gets the
/// status `deleted` too, and the result says so.
pub fn delete_edge_rows(
    edges: &WriteTable<'_>,
    data: &mut WriteTable<'_>,
    index: &mut WriteTable<'_>,
    from: &str,
    to: &str,
    always_both: bool,
) -> (r: Result<Option<bool>, redb::Error>)
    ensures
        r matches Ok(done) ==> match done {
            None => !table_rows(edges).contains_key(join2(utf8(from@), utf8(to@)))
                && edge_rows_of(final(data), final(index)) == edge_rows_of(old(data), old(index)),
            Some(both) => table_rows(edges).contains_key(join2(utf8(from@), utf8(to@))) && both
                == ((always_both || stored_block(table_rows(old(data)), utf8(from@), utf8(to@)))
                && utf8(from@) != utf8(to@)) && edge_rows_of(final(data), final(index))
                == edge_rows_deleted(
                edge_rows_of(old(data), old(index)),
                utf8(from@),
                utf8(to@),
                both,
            ),
        },
        r is Ok && edge_rows_coherent(edge_rows_of(old(data), old(index))) ==> edge_rows_coherent(
            edge_rows_of(final(data), final(index)),
        ),
{
    let ghost before = edge_rows_of(data, index);
    let key = edge_key(from, to);
    if table_get(edges, key.as_str())?.is_none() {
        return Ok(None);
    }
    let type_key = edge_data_key(from, to, TYPE_KEY);
    let stored = table_get(data, type_key.as_str())?;
    let both = (always_both || is_block_type(&stored)) && !str_eq(from, to);
    upsert_edge_property(data, index, from, to, STATUS_KEY, STATUS_DELETED)?;
    if both {
        upsert_edge_property(data, index, to, from, STATUS_KEY, STATUS_DELETED)?;
    }
    Ok(Some(both))
}

/// Marks a node and every edge at it as deleted inside a write
/// transaction, from what a snapshot shows of the node table and the edge
/// table. Without a row of the node nothing is written and the result is
/// `false`.
pub fn delete_node_rows(
    nodes: &Snapshot,
    edges: &Snapshot,
    node_data: &mut WriteTable<'_>,
    node_index: &mut WriteTable<'_>,
    geo: &mut WriteTable<'_>,
    edge_data: &mut WriteTable<'_>,
    edge_index: &mut WriteTable<'_>,
    id: &str,
) -> (r: Result<bool, redb::Error>)
    ensures
        r matches Ok(found) ==> found == snapshot_rows(nodes).contains_key(escape(utf8(id@))),
        r matches Ok(found) ==> node_rows_of(final(node_data), final(node_index), final(geo))
            == if found {
            node_upsert(
                node_rows_of(old(node_data), old(node_index), old(geo)),
                utf8(id@),
                utf8(STATUS_KEY@),
                utf8(STATUS_DELETED@),
            )
        } else {
            node_rows_of(old(node_data), old(node_index), old(geo))
        },
        r matches Ok(found) ==> edge_rows_of(final(edge_data), final(edge_index)) == if found {
            edges_marked_deleted(
                edge_rows_of(old(edge_data), old(edge_index)),
                edges_at(all_rows(snapshot_rows(edges)), utf8(id@)),
            )
        } else {
            edge_rows_of(old(edge_data), old(edge_index))
        },
        r is Ok && node_rows_coherent(node_rows_of(old(node_data), old(node_index), old(geo)))
            ==> node_rows_coherent(node_rows_of(final(node_data), final(node_index), final(geo))),
        r is Ok && edge_rows_coherent(edge_rows_of(old(edge_data), old(edge_index)))
            ==> edge_rows_coherent(edge_rows_of(final(edge_data), final(edge_index))),
{
    if !has_node_row(nodes, id)? {
        return Ok(false);
    }
    upsert_node_property(node_data, node_index, geo, id, STATUS_KEY, STATUS_DELETED)?;
    let touching = edges_touching(edges, id)?;
    mark_edges_deleted(edge_data, edge_index, &touching)?;
    Ok(true)
}

/// Gives every node and every edge that a snapshot shows without a status
/// the status `active`, inside a write transaction, with the index entries
/// that belong to it. Returns whether any was missing.
pub fn backfill_status(
    nodes: &Snapshot,
    node_data_seen: &Snapshot,
    edges: &Snapshot,
    edge_data_seen: &Snapshot,
    node_data: &mut WriteTable<'_>,
    node_index: &mut WriteTable<'_>,
    geo: &mut WriteTable<'_>,
    edge_data: &mut WriteTable<'_>,
    edge_index: &mut WriteTable<'_>,
) -> (r: Result<bool, redb::Error>)
    ensures
        r is Ok ==> node_rows_of(final(node_data), final(node_index), final(geo))
            == node_backfill_all(
            node_rows_of(old(node_data), old(node_index), old(geo)),
            nodes_missing(
                all_rows(snapshot_rows(nodes)),
                nodes_with_status(all_rows(snapshot_rows(node_data_seen))),
            ),
        ),
        r is Ok ==> edge_rows_of(final(edge_data), final(edge_index)) == edge_backfill_all(
            edge_rows_of(old(edge_data), old(edge_index)),
            edges_missing(
                all_rows(snapshot_rows(edges)),
                edges_with_status(all_rows(snapshot_rows(edge_data_seen))),
            ),
        ),
        r matches Ok(any) ==> any == (nodes_missing(
            all_rows(snapshot_rows(nodes)),
            nodes_with_status(all_rows(snapshot_rows(node_data_seen))),
        ).len() > 0 || edges_missing(
            all_rows(snapshot_rows(edges)),
            edges_with_status(all_rows(snapshot_rows(edge_data_seen))),
        ).len() > 0),
{
    let missing_nodes = nodes_without_status(nodes, node_data_seen)?;
    let missing_edges = edges_without_status(edges, edge_data_seen)?;
    backfill_node_status(node_data, node_index, geo, &missing_nodes)?;
    backfill_edge_status(edge_data, edge_index, &missing_edges)?;
    Ok(missing_nodes.len() > 0 || missing_edges.len() > 0)
}

/// A table holds no row.
pub open spec fn holds_nothing(rows: Rows) -> bool {
    forall|key: Seq<u8>| !rows.contains_key(key)
}

/// Fills an index over the node properties inside a write transaction, from
/// the property rows that a snapshot shows, where the snapshot shows the
/// index without any row. An index that holds anything is left as it is.
/// Returns whether the index was filled.
pub fn rebuild_node_index(seen: &Snapshot, node_data: &Snapshot, index: &mut WriteTable<'_>) -> (r: Result<
    bool,
    redb::Error,
>)
    ensures
        r matches Ok(filled) ==> filled == holds_nothing(snapshot_rows(seen)),
        r matches Ok(filled) ==> table_rows(final(index)) == if filled {
            with_entries(
                table_rows(old(index)),
                node_entries_of_rows(all_rows(snapshot_rows(node_data))),
            )
        } else {
            table_rows(old(index))
        },
{
    if !snapshot_is_empty(seen)? {
        return Ok(false);
    }
    let entries = index_entries_for_nodes(node_data)?;
    insert_entries(index, &entries)?;
    Ok(true)
}

/// Fills the index over the edge properties inside a write transaction,
/// from the property rows that a snapshot shows, where the snapshot shows
/// the index without any row. An index that holds anything is left as it
/// is. Returns whether the index was filled.
pub fn rebuild_edge_index(seen: &Snapshot, edge_data: &Snapshot, index: &mut WriteTable<'_>) -> (r: Result<
    bool,
    redb::Error,
>)
    ensures
        r matches Ok(filled) ==> filled == holds_nothing(snapshot_rows(seen)),
        r matches Ok(filled) ==> table_rows(final(index)) == if filled {
            with_entries(
                table_rows(old(index)),
                edge_entries_of_rows(all_rows(snapshot_rows(edge_data))),
            )
        } else {
            table_rows(old(index))
        },
{
    if !snapshot_is_empty(seen)? {
        return Ok(false);
    }
    let entries = index_entries_for_edges(edge_data)?;
    insert_entries(index, &entries)?;
    Ok(true)
}

} // verus!
