use vstd::prelude::*;
use crate::text::{utf8, strings_utf8};
use crate::codec::{opt_utf8, escape, encode_component};
use crate::schema::{stored_fields, serialize_schema_fields};
use crate::keys::{join2, join3, join4, edge_key, node_data_key, node_index_key, geo_index_key, edge_data_key, edge_index_key, lemma_join2_injective, lemma_join3_injective, lemma_join4_injective};
use crate::props::{PropertyMap, Pair};
use crate::store::{WriteTable, table_rows, table_get, table_insert, table_remove};

verus! {

/// The rows of a table.
pub type Rows = Map<Seq<u8>, Seq<u8>>;

/// The property rows of the nodes and the two indexes over them.
pub struct NodeRows {
    pub data: Rows,
    pub index: Rows,
    pub geo: Rows,
}

/// The property rows of the edges and the index over them.
pub struct EdgeRows {
    pub data: Rows,
    pub index: Rows,
}

/// An index once a property has a new value: the entry of the value that it
/// had is gone, the entry of the new value is there.
pub open spec fn reindexed(index: Rows, stale: Option<Seq<u8>>, fresh: Seq<u8>) -> Rows {
    match stale {
        Some(entry) => index.remove(entry).insert(fresh, Seq::empty()),
        None => index.insert(fresh, Seq::empty()),
    }
}

/// The index entry of the value that a node property has, if it has one.
pub open spec fn stale_node_entry(data: Rows, id: Seq<u8>, key: Seq<u8>) -> Option<Seq<u8>> {
    if data.contains_key(join2(id, key)) {
        Some(join3(key, data[join2(id, key)], id))
    } else {
        None
    }
}

/// The index entry of the value that an edge property has, if it has one.
pub open spec fn stale_edge_entry(data: Rows, from: Seq<u8>, to: Seq<u8>, key: Seq<u8>) -> Option<
    Seq<u8>,
> {
    if data.contains_key(join3(from, to, key)) {
        Some(join4(key, data[join3(from, to, key)], from, to))
    } else {
        None
    }
}

/// The node rows once the property `key` of the node `id` is `value`.
pub open spec fn node_upsert(rows: NodeRows, id: Seq<u8>, key: Seq<u8>, value: Seq<u8>) -> NodeRows {
    let stale = stale_node_entry(rows.data, id, key);
    NodeRows {
        data: rows.data.insert(join2(id, key), value),
        index: reindexed(rows.index, stale, join3(key, value, id)),
        geo: reindexed(rows.geo, stale, join3(key, value, id)),
    }
}

/// The edge rows once the property `key` of the edge is `value`.
pub open spec fn edge_upsert(
    rows: EdgeRows,
    from: Seq<u8>,
    to: Seq<u8>,
    key: Seq<u8>,
    value: Seq<u8>,
) -> EdgeRows {
    let stale = stale_edge_entry(rows.data, from, to, key);
    EdgeRows {
        data: rows.data.insert(join3(from, to, key), value),
        index: reindexed(rows.index, stale, join4(key, value, from, to)),
    }
}

/// The node rows once each of the properties has its value, in their order.
pub open spec fn node_upsert_all(rows: NodeRows, id: Seq<u8>, properties: Seq<Pair>) -> NodeRows
    decreases properties.len(),
{
    if properties.len() == 0 {
        rows
    } else {
        node_upsert(
            node_upsert_all(rows, id, properties.drop_last()),
            id,
            properties.last().0,
            properties.last().1,
        )
    }
}

/// The edge rows once each of the properties has its value, in their order.
pub open spec fn edge_upsert_all(
    rows: EdgeRows,
    from: Seq<u8>,
    to: Seq<u8>,
    properties: Seq<Pair>,
) -> EdgeRows
    decreases properties.len(),
{
    if properties.len() == 0 {
        rows
    } else {
        edge_upsert(
            edge_upsert_all(rows, from, to, properties.drop_last()),
            from,
            to,
            properties.last().0,
            properties.last().1,
        )
    }
}

/// An index over node properties holds an entry `(key, value, id)` for
/// every property row `(id, key)` with that value, and no other entry of
/// that form.
pub open spec fn node_index_coherent(data: Rows, index: Rows) -> bool {
    &&& forall|id: Seq<u8>, key: Seq<u8>| #[trigger]
        data.contains_key(join2(id, key)) ==> index.contains_key(
            join3(key, data[join2(id, key)], id),
        )
    &&& forall|id: Seq<u8>, key: Seq<u8>, value: Seq<u8>| #[trigger]
        index.contains_key(join3(key, value, id)) ==> data.contains_key(join2(id, key))
            && data[join2(id, key)] == value
}

/// The index over edge properties holds an entry `(key, value, from, to)`
/// for every property row `(from, to, key)` with that value, and no other
/// entry of that form.
pub open spec fn edge_index_coherent(data: Rows, index: Rows) -> bool {
    &&& forall|from: Seq<u8>, to: Seq<u8>, key: Seq<u8>| #[trigger]
        data.contains_key(join3(from, to, key)) ==> index.contains_key(
            join4(key, data[join3(from, to, key)], from, to),
        )
    &&& forall|from: Seq<u8>, to: Seq<u8>, key: Seq<u8>, value: Seq<u8>| #[trigger]
        index.contains_key(join4(key, value, from, to)) ==> data.contains_key(
            join3(from, to, key),
        ) && data[join3(from, to, key)] == value
}

/// Both indexes over the node properties are coherent with them.
pub open spec fn node_rows_coherent(rows: NodeRows) -> bool {
    node_index_coherent(rows.data, rows.index) && node_index_coherent(rows.data, rows.geo)
}

/// The edge index is coherent with the edge properties.
pub open spec fn edge_rows_coherent(rows: EdgeRows) -> bool {
    edge_index_coherent(rows.data, rows.index)
}

/// Index coherence: setting a node property keeps an index coherent with
/// the property rows.
pub proof fn lemma_node_upsert_coherent(
    data: Rows,
    index: Rows,
    id: Seq<u8>,
    key: Seq<u8>,
    value: Seq<u8>,
)
    requires
        node_index_coherent(data, index),
    ensures
        node_index_coherent(
            data.insert(join2(id, key), value),
            reindexed(index, stale_node_entry(data, id, key), join3(key, value, id)),
        ),
{
    let data2 = data.insert(join2(id, key), value);
    let index2 = reindexed(index, stale_node_entry(data, id, key), join3(key, value, id));
    assert forall|i: Seq<u8>, k: Seq<u8>| #[trigger]
        data2.contains_key(join2(i, k)) implies index2.contains_key(
        join3(k, data2[join2(i, k)], i),
    ) by {
        if join2(i, k) == join2(id, key) {
            lemma_join2_injective(i, k, id, key);
        } else {
            assert(data.contains_key(join2(i, k)));
            let entry = join3(k, data[join2(i, k)], i);
            assert(index.contains_key(entry));
            if data.contains_key(join2(id, key)) {
                let stale = join3(key, data[join2(id, key)], id);
                if entry == stale {
                    lemma_join3_injective(k, data[join2(i, k)], i, key, data[join2(id, key)], id);
                }
            }
        }
    }
    assert forall|i: Seq<u8>, k: Seq<u8>, v: Seq<u8>| #[trigger]
        index2.contains_key(join3(k, v, i)) implies data2.contains_key(join2(i, k)) && data2[join2(
        i,
        k,
    )] == v by {
        if join3(k, v, i) == join3(key, value, id) {
            lemma_join3_injective(k, v, i, key, value, id);
        } else {
            assert(index.contains_key(join3(k, v, i)));
            assert(data.contains_key(join2(i, k)) && data[join2(i, k)] == v);
            if join2(i, k) == join2(id, key) {
                lemma_join2_injective(i, k, id, key);
                assert(join3(k, v, i) == join3(key, data[join2(id, key)], id));
            }
        }
    }
}

/// Index coherence: setting an edge property keeps the index coherent with
/// the property rows.
pub proof fn lemma_edge_upsert_coherent(
    rows: EdgeRows,
    from: Seq<u8>,
    to: Seq<u8>,
    key: Seq<u8>,
    value: Seq<u8>,
)
    requires
        edge_rows_coherent(rows),
    ensures
        edge_rows_coherent(edge_upsert(rows, from, to, key, value)),
{
    let data = rows.data;
    let index = rows.index;
    let next = edge_upsert(rows, from, to, key, value);
    let data2 = next.data;
    let index2 = next.index;
    assert forall|f: Seq<u8>, t: Seq<u8>, k: Seq<u8>| #[trigger]
        data2.contains_key(join3(f, t, k)) implies index2.contains_key(
        join4(k, data2[join3(f, t, k)], f, t),
    ) by {
        if join3(f, t, k) == join3(from, to, key) {
            lemma_join3_injective(f, t, k, from, to, key);
        } else {
            assert(data.contains_key(join3(f, t, k)));
            let entry = join4(k, data[join3(f, t, k)], f, t);
            assert(index.contains_key(entry));
            if data.contains_key(join3(from, to, key)) {
                let stale = join4(key, data[join3(from, to, key)], from, to);
                if entry == stale {
                    lemma_join4_injective(
                        k,
                        data[join3(f, t, k)],
                        f,
                        t,
                        key,
                        data[join3(from, to, key)],
                        from,
                        to,
                    );
                }
            }
        }
    }
    assert forall|f: Seq<u8>, t: Seq<u8>, k: Seq<u8>, v: Seq<u8>| #[trigger]
        index2.contains_key(join4(k, v, f, t)) implies data2.contains_key(join3(f, t, k))
        && data2[join3(f, t, k)] == v by {
        if join4(k, v, f, t) == join4(key, value, from, to) {
            lemma_join4_injective(k, v, f, t, key, value, from, to);
        } else {
            assert(index.contains_key(join4(k, v, f, t)));
            assert(data.contains_key(join3(f, t, k)) && data[join3(f, t, k)] == v);
            if join3(f, t, k) == join3(from, to, key) {
                lemma_join3_injective(f, t, k, from, to, key);
                assert(join4(k, v, f, t) == join4(key, data[join3(from, to, key)], from, to));
            }
        }
    }
}

/// Index coherence for nodes: setting a property keeps both indexes
/// coherent with the property rows.
pub proof fn lemma_node_rows_upsert_coherent(rows: NodeRows, id: Seq<u8>, key: Seq<u8>, value: Seq<u8>)
    requires
        node_rows_coherent(rows),
    ensures
        node_rows_coherent(node_upsert(rows, id, key, value)),
{
    lemma_node_upsert_coherent(rows.data, rows.index, id, key, value);
    lemma_node_upsert_coherent(rows.data, rows.geo, id, key, value);
}

/// Index coherence over any sequence of upserts to one node.
pub proof fn lemma_node_upsert_all_coherent(rows: NodeRows, id: Seq<u8>, properties: Seq<Pair>)
    requires
        node_rows_coherent(rows),
    ensures
        node_rows_coherent(node_upsert_all(rows, id, properties)),
    decreases properties.len(),
{
    if properties.len() > 0 {
        lemma_node_upsert_all_coherent(rows, id, properties.drop_last());
        lemma_node_rows_upsert_coherent(
            node_upsert_all(rows, id, properties.drop_last()),
            id,
            properties.last().0,
            properties.last().1,
        );
    }
}

/// Index coherence over any sequence of upserts to one edge.
pub proof fn lemma_edge_upsert_all_coherent(
    rows: EdgeRows,
    from: Seq<u8>,
    to: Seq<u8>,
    properties: Seq<Pair>,
)
    requires
        edge_rows_coherent(rows),
    ensures
        edge_rows_coherent(edge_upsert_all(rows, from, to, properties)),
    decreases properties.len(),
{
    if properties.len() > 0 {
        lemma_edge_upsert_all_coherent(rows, from, to, properties.drop_last());
        lemma_edge_upsert_coherent(
            edge_upsert_all(rows, from, to, properties.drop_last()),
            from,
            to,
            properties.last().0,
            properties.last().1,
        );
    }
}

/// The rows that the three tables of node properties hold.
pub open spec fn node_rows_of(data: &WriteTable<'_>, index: &WriteTable<'_>, geo: &WriteTable<'_>) -> NodeRows {
    NodeRows { data: table_rows(data), index: table_rows(index), geo: table_rows(geo) }
}

/// The rows that the two tables of edge properties hold.
pub open spec fn edge_rows_of(data: &WriteTable<'_>, index: &WriteTable<'_>) -> EdgeRows {
    EdgeRows { data: table_rows(data), index: table_rows(index) }
}

/// Writes the row of a node into the node table, inside a write
/// transaction: its encoded id, as the key of an empty value.
pub fn put_node_row(nodes: &mut WriteTable<'_>, node_id: &str) -> (r: Result<(), redb::Error>)
    ensures
        r is Ok ==> table_rows(final(nodes)) == table_rows(old(nodes)).insert(
            escape(utf8(node_id@)),
            Seq::<u8>::empty(),
        ),
{
    proof {
        reveal_strlit("");
        assert(utf8(""@) =~= Seq::<u8>::empty());
    }
    let encoded = encode_component(node_id);
    table_insert(nodes, encoded.as_str(), "")
}

/// Writes the row of an edge into the edge table, inside a write
/// transaction: the key of the edge, as the key of an empty value.
pub fn put_edge_row(edges: &mut WriteTable<'_>, from: &str, to: &str) -> (r: Result<
    (),
    redb::Error,
>)
    ensures
        r is Ok ==> table_rows(final(edges)) == table_rows(old(edges)).insert(
            join2(utf8(from@), utf8(to@)),
            Seq::<u8>::empty(),
        ),
{
    proof {
        reveal_strlit("");
        assert(utf8(""@) =~= Seq::<u8>::empty());
    }
    let key = edge_key(from, to);
    table_insert(edges, key.as_str(), "")
}

/// Writes the whitelist of a kind of entity into the schema table, inside
/// a write transaction: under the name of the kind, the fields as they are
/// stored.
pub fn put_whitelist(schema: &mut WriteTable<'_>, entity: &str, fields: &[String]) -> (r: Result<
    (),
    redb::Error,
>)
    ensures
        r is Ok ==> table_rows(final(schema)) == table_rows(old(schema)).insert(
            utf8(entity@),
            stored_fields(strings_utf8(fields@)),
        ),
{
    let value = serialize_schema_fields(fields);
    table_insert(schema, entity, value.as_str())
}

/// The index entry that goes stale where a property of a node gets a new
/// value: that of the value that the property had, and none where it had
/// none. The geo index has its entries under the same keys.
pub fn stale_node_key(previous: &Option<String>, node_id: &str, key: &str) -> (r: Option<String>)
    ensures
        opt_utf8(r) == match *previous {
            Some(value) => Some(join3(utf8(key@), utf8(value@), utf8(node_id@))),
            None => None,
        },
{
    match previous {
        Some(value) => Some(node_index_key(key, value.as_str(), node_id)),
        None => None,
    }
}

/// The index entry that goes stale where a property of an edge gets a new
/// value: that of the value that the property had, and none where it had
/// none.
pub fn stale_edge_key(previous: &Option<String>, from: &str, to: &str, key: &str) -> (r: Option<
    String,
>)
    ensures
        opt_utf8(r) == match *previous {
            Some(value) => Some(join4(utf8(key@), utf8(value@), utf8(from@), utf8(to@))),
            None => None,
        },
{
    match previous {
        Some(value) => Some(edge_index_key(key, value.as_str(), from, to)),
        None => None,
    }
}

/// Sets a property of a node inside a write transaction: writes the
/// property row, removes the index entries of the value that it had, and
/// adds those of the new value, to the node index and to the geo index.
pub fn upsert_node_property(
    data: &mut WriteTable<'_>,
    index: &mut WriteTable<'_>,
    geo: &mut WriteTable<'_>,
    node_id: &str,
    key: &str,
    value: &str,
) -> (r: Result<(), redb::Error>)
    ensures
        r is Ok ==> node_rows_of(final(data), final(index), final(geo)) == node_upsert(
            node_rows_of(old(data), old(index), old(geo)),
            utf8(node_id@),
            utf8(key@),
            utf8(value@),
        ),
        r is Ok && node_rows_coherent(node_rows_of(old(data), old(index), old(geo)))
            ==> node_rows_coherent(node_rows_of(final(data), final(index), final(geo))),
{
    let ghost before = node_rows_of(data, index, geo);
    let data_key = node_data_key(node_id, key);
    let previous = table_get(data, data_key.as_str())?;
    table_insert(data, data_key.as_str(), value)?;
    if let Some(stale) = stale_node_key(&previous, node_id, key) {
        table_remove(index, stale.as_str())?;
        table_remove(geo, stale.as_str())?;
    }
    let index_key = node_index_key(key, value, node_id);
    table_insert(index, index_key.as_str(), "")?;
    let geo_key = geo_index_key(key, value, node_id);
    table_insert(geo, geo_key.as_str(), "")?;
    proof {
        reveal_strlit("");
        assert(utf8(""@) =~= Seq::<u8>::empty());
        if node_rows_coherent(before) {
            lemma_node_rows_upsert_coherent(before, utf8(node_id@), utf8(key@), utf8(value@));
        }
    }
    Ok(())
}

/// Sets a property of an edge inside a write transaction: writes the
/// property row, removes the index entry of the value that it had, and adds
/// that of the new value.
pub fn upsert_edge_property(
    data: &mut WriteTable<'_>,
    index: &mut WriteTable<'_>,
    from: &str,
    to: &str,
    key: &str,
    value: &str,
) -> (r: Result<(), redb::Error>)
    ensures
        r is Ok ==> edge_rows_of(final(data), final(index)) == edge_upsert(
            edge_rows_of(old(data), old(index)),
            utf8(from@),
            utf8(to@),
            utf8(key@),
            utf8(value@),
        ),
        r is Ok && edge_rows_coherent(edge_rows_of(old(data), old(index))) ==> edge_rows_coherent(
            edge_rows_of(final(data), final(index)),
        ),
{
    let ghost before = edge_rows_of(data, index);
    let data_key = edge_data_key(from, to, key);
    let previous = table_get(data, data_key.as_str())?;
    table_insert(data, data_key.as_str(), value)?;
    if let Some(stale) = stale_edge_key(&previous, from, to, key) {
        table_remove(index, stale.as_str())?;
    }
    let index_key = edge_index_key(key, value, from, to);
    table_insert(index, index_key.as_str(), "")?;
    proof {
        reveal_strlit("");
        assert(utf8(""@) =~= Seq::<u8>::empty());
        if edge_rows_coherent(before) {
            lemma_edge_upsert_coherent(before, utf8(from@), utf8(to@), utf8(key@), utf8(value@));
        }
    }
    Ok(())
}

/// Sets each property of `properties` on a node, in their order, inside one
/// write transaction. With no properties the tables are not touched, and
/// nothing can fail.
pub fn upsert_node_properties(
    data: &mut WriteTable<'_>,
    index: &mut WriteTable<'_>,
    geo: &mut WriteTable<'_>,
    node_id: &str,
    properties: &PropertyMap,
) -> (r: Result<(), redb::Error>)
    ensures
        r is Ok ==> node_rows_of(final(data), final(index), final(geo)) == node_upsert_all(
            node_rows_of(old(data), old(index), old(geo)),
            utf8(node_id@),
            properties.pairs(),
        ),
        r is Ok && node_rows_coherent(node_rows_of(old(data), old(index), old(geo)))
            ==> node_rows_coherent(node_rows_of(final(data), final(index), final(geo))),
        properties.pairs().len() == 0 ==> r is Ok,
{
    let ghost before = node_rows_of(data, index, geo);
    let ghost pairs = properties.pairs();
    let count = properties.len();
    let mut i: usize = 0;
    proof {
        assert(pairs.take(0) =~= Seq::<Pair>::empty());
    }
    while i < count
        invariant
            0 <= i <= count,
            count == pairs.len(),
            pairs == properties.pairs(),
            node_rows_of(data, index, geo) == node_upsert_all(
                before,
                utf8(node_id@),
                pairs.take(i as int),
            ),
        decreases count - i,
    {
        proof {
            assert(pairs.take(i + 1).drop_last() =~= pairs.take(i as int));
            assert(pairs.take(i + 1).last() == pairs[i as int]);
        }
        upsert_node_property(
            data,
            index,
            geo,
            node_id,
            properties.key_at(i).as_str(),
            properties.value_at(i).as_str(),
        )?;
        i += 1;
    }
    proof {
        assert(pairs.take(i as int) =~= pairs);
        if node_rows_coherent(before) {
            lemma_node_upsert_all_coherent(before, utf8(node_id@), pairs);
        }
    }
    Ok(())
}

/// Sets each property of `properties` on an edge, in their order, inside
/// one write transaction. With no properties the tables are not touched,
/// and nothing can fail.
pub fn upsert_edge_properties(
    data: &mut WriteTable<'_>,
    index: &mut WriteTable<'_>,
    from: &str,
    to: &str,
    properties: &PropertyMap,
) -> (r: Result<(), redb::Error>)
    ensures
        r is Ok ==> edge_rows_of(final(data), final(index)) == edge_upsert_all(
            edge_rows_of(old(data), old(index)),
            utf8(from@),
            utf8(to@),
            properties.pairs(),
        ),
        r is Ok && edge_rows_coherent(edge_rows_of(old(data), old(index))) ==> edge_rows_coherent(
            edge_rows_of(final(data), final(index)),
        ),
        properties.pairs().len() == 0 ==> r is Ok,
{
    let ghost before = edge_rows_of(data, index);
    let ghost pairs = properties.pairs();
    let count = properties.len();
    let mut i: usize = 0;
    proof {
        assert(pairs.take(0) =~= Seq::<Pair>::empty());
    }
    while i < count
        invariant
            0 <= i <= count,
            count == pairs.len(),
            pairs == properties.pairs(),
            edge_rows_of(data, index) == edge_upsert_all(
                before,
                utf8(from@),
                utf8(to@),
                pairs.take(i as int),
            ),
        decreases count - i,
    {
        proof {
            assert(pairs.take(i + 1).drop_last() =~= pairs.take(i as int));
            assert(pairs.take(i + 1).last() == pairs[i as int]);
        }
        upsert_edge_property(
            data,
            index,
            from,
            to,
            properties.key_at(i).as_str(),
            properties.value_at(i).as_str(),
        )?;
        i += 1;
    }
    proof {
        assert(pairs.take(i as int) =~= pairs);
        if edge_rows_coherent(before) {
            lemma_edge_upsert_all_coherent(before, utf8(from@), utf8(to@), pairs);
        }
    }
    Ok(())
}

} // verus!
