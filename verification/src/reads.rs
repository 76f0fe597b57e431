use vstd::prelude::*;
use crate::text::{utf8, strings_utf8};
use crate::codec::{decode, escape, encode_component};
use crate::keys::{cut2, cut3, cut4, join2, prefix1, prefix2, split_two, split_three, split_four, edge_key, node_data_prefix, edge_from_prefix, edge_data_prefix, index_prefix, geo_index_prefix};
use crate::props::{PropertyMap, Pair};
use crate::graph::Properties;
use crate::schema::{active_data, is_active_data};
use crate::groups::{Groups, with_property};
use crate::lru::{LruCache, holds_decodings, decode_component_cached};
use crate::store::{Snapshot, PrefixScan, snapshot_rows, prefix_rows, has_scan, scan_rows, snapshot_get, row_ahead, row_bytes};

verus! {

/// The id that an index row of a node names: its third component, decoded.
pub open spec fn row_node_id(row: Pair) -> Option<Seq<u8>> {
    match cut3(row.0) {
        Some((_, _, id)) => decode(id),
        None => None,
    }
}

/// The edge that an index row of an edge names: its third and fourth
/// components, decoded.
pub open spec fn row_edge(row: Pair) -> Option<(Seq<u8>, Seq<u8>)> {
    match cut4(row.0) {
        Some((_, _, from, to)) => match (decode(from), decode(to)) {
            (Some(from), Some(to)) => Some((from, to)),
            _ => None,
        },
        None => None,
    }
}

/// The property that a property row of a node holds: the decoded second
/// component of its key, with its value.
pub open spec fn row_property(row: Pair) -> Option<Pair> {
    match cut2(row.0) {
        Some((_, key)) => match decode(key) {
            Some(key) => Some((key, row.1)),
            None => None,
        },
        None => None,
    }
}

/// The target and the property that a property row of an edge holds: the
/// decoded second and third components of its key, with its value.
pub open spec fn row_edge_property(row: Pair) -> Option<(Seq<u8>, Pair)> {
    match cut3(row.0) {
        Some((_, to, key)) => match (decode(to), decode(key)) {
            (Some(to), Some(key)) => Some((to, (key, row.1))),
            _ => None,
        },
        None => None,
    }
}

/// The property that a property row of an edge holds, whatever its edge:
/// the decoded third component of its key, with its value.
pub open spec fn row_third_property(row: Pair) -> Option<Pair> {
    match cut3(row.0) {
        Some((_, _, key)) => match decode(key) {
            Some(key) => Some((key, row.1)),
            None => None,
        },
        None => None,
    }
}

/// The node ids that index rows name, in the order of the rows.
pub open spec fn ids_of_rows(rows: Seq<Pair>) -> Seq<Seq<u8>>
    decreases rows.len(),
{
    if rows.len() == 0 {
        Seq::empty()
    } else {
        let before = ids_of_rows(rows.drop_last());
        match row_node_id(rows.last()) {
            Some(id) => before.push(id),
            None => before,
        }
    }
}

/// The edges that index rows name, in the order of the rows.
pub open spec fn edges_of_rows(rows: Seq<Pair>) -> Seq<(Seq<u8>, Seq<u8>)>
    decreases rows.len(),
{
    if rows.len() == 0 {
        Seq::empty()
    } else {
        let before = edges_of_rows(rows.drop_last());
        match row_edge(rows.last()) {
            Some(edge) => before.push(edge),
            None => before,
        }
    }
}

/// The properties that property rows of one node hold; a later row wins.
pub open spec fn properties_of_rows(rows: Seq<Pair>) -> Properties
    decreases rows.len(),
{
    if rows.len() == 0 {
        Map::empty()
    } else {
        let before = properties_of_rows(rows.drop_last());
        match row_property(rows.last()) {
            Some(property) => before.insert(property.0, property.1),
            None => before,
        }
    }
}

/// The properties that property rows of one edge hold; a later row wins.
pub open spec fn edge_properties_of_rows(rows: Seq<Pair>) -> Properties
    decreases rows.len(),
{
    if rows.len() == 0 {
        Map::empty()
    } else {
        let before = edge_properties_of_rows(rows.drop_last());
        match row_third_property(rows.last()) {
            Some(property) => before.insert(property.0, property.1),
            None => before,
        }
    }
}

/// The properties that property rows of the edges of one node hold, under
/// the target of each edge.
pub open spec fn groups_of_rows(rows: Seq<Pair>) -> Map<Seq<u8>, Properties>
    decreases rows.len(),
{
    if rows.len() == 0 {
        Map::empty()
    } else {
        let before = groups_of_rows(rows.drop_last());
        match row_edge_property(rows.last()) {
            Some((to, property)) => with_property(before, to, property.0, property.1),
            None => before,
        }
    }
}

/// The bytes of a list of pairs of strings.
pub open spec fn string_pairs(items: Seq<(String, String)>) -> Seq<(Seq<u8>, Seq<u8>)> {
    items.map_values(|item: (String, String)| (utf8(item.0@), utf8(item.1@)))
}

/// Whether the node table of a snapshot has the row of a node.
pub fn has_node_row(nodes: &Snapshot, node_id: &str) -> (r: Result<bool, redb::Error>)
    ensures
        r matches Ok(found) ==> found == snapshot_rows(nodes).contains_key(escape(utf8(node_id@))),
{
    let encoded = encode_component(node_id);
    match snapshot_get(nodes, encoded.as_str()) {
        Ok(found) => Ok(found.is_some()),
        Err(error) => Err(error),
    }
}

/// Whether the edge table of a snapshot has the row of an edge.
pub fn has_edge_row(edges: &Snapshot, from: &str, to: &str) -> (r: Result<bool, redb::Error>)
    ensures
        r matches Ok(found) ==> found == snapshot_rows(edges).contains_key(
            join2(utf8(from@), utf8(to@)),
        ),
{
    let key = edge_key(from, to);
    match snapshot_get(edges, key.as_str()) {
        Ok(found) => Ok(found.is_some()),
        Err(error) => Err(error),
    }
}

/// Adds to `ids` the node id that an index row names; a row that names
/// none is passed over.
pub fn add_row_id(row: &(String, String), cache: &mut LruCache, ids: &mut Vec<String>)
    ensures
        holds_decodings(old(cache).pairs()) ==> holds_decodings(final(cache).pairs()),
        holds_decodings(old(cache).pairs()) ==> strings_utf8(final(ids)@) == match row_node_id(
            row_bytes(*row),
        ) {
            Some(id) => strings_utf8(old(ids)@).push(id),
            None => strings_utf8(old(ids)@),
        },
{
    let ghost before = strings_utf8(ids@);
    if let Some((_, _, encoded)) = split_three(row.0.as_str()) {
        if let Some(id) = decode_component_cached(encoded, cache) {
            ids.push(id);
            proof {
                assert(strings_utf8(ids@) =~= before.push(utf8(id@)));
            }
        }
    }
}

/// Adds to `edges` the edge that an index row names; a row that names none
/// is passed over.
pub fn add_row_edge(
    row: &(String, String),
    cache: &mut LruCache,
    edges: &mut Vec<(String, String)>,
)
    ensures
        holds_decodings(old(cache).pairs()) ==> holds_decodings(final(cache).pairs()),
        holds_decodings(old(cache).pairs()) ==> string_pairs(final(edges)@) == match row_edge(
            row_bytes(*row),
        ) {
            Some(edge) => string_pairs(old(edges)@).push(edge),
            None => string_pairs(old(edges)@),
        },
{
    let ghost before = string_pairs(edges@);
    if let Some((_, _, from, to)) = split_four(row.0.as_str()) {
        if let Some(from) = decode_component_cached(from, cache) {
            if let Some(to) = decode_component_cached(to, cache) {
                edges.push((from, to));
                proof {
                    assert(string_pairs(edges@) =~= before.push((utf8(from@), utf8(to@))));
                }
            }
        }
    }
}

/// Puts into `data` the property that a property row of a node holds; a
/// row that holds none is passed over.
pub fn add_row_property(row: (String, String), cache: &mut LruCache, data: &mut PropertyMap)
    ensures
        holds_decodings(old(cache).pairs()) ==> holds_decodings(final(cache).pairs()),
        holds_decodings(old(cache).pairs()) ==> final(data)@ == match row_property(row_bytes(row)) {
            Some(property) => old(data)@.insert(property.0, property.1),
            None => old(data)@,
        },
{
    let (row_key, row_value) = row;
    if let Some((_, encoded)) = split_two(row_key.as_str()) {
        if let Some(key) = decode_component_cached(encoded, cache) {
            data.insert(key, row_value);
        }
    }
}

/// Puts into `data` the property that a property row of an edge holds,
/// whatever its edge; a row that holds none is passed over.
pub fn add_row_third_property(row: (String, String), cache: &mut LruCache, data: &mut PropertyMap)
    ensures
        holds_decodings(old(cache).pairs()) ==> holds_decodings(final(cache).pairs()),
        holds_decodings(old(cache).pairs()) ==> final(data)@ == match row_third_property(
            row_bytes(row),
        ) {
            Some(property) => old(data)@.insert(property.0, property.1),
            None => old(data)@,
        },
{
    let (row_key, row_value) = row;
    if let Some((_, _, encoded)) = split_three(row_key.as_str()) {
        if let Some(key) = decode_component_cached(encoded, cache) {
            data.insert(key, row_value);
        }
    }
}

/// Puts into `groups` the property that a property row of an edge holds,
/// under the target of the edge; a row that holds none is passed over.
pub fn add_row_group(row: (String, String), cache: &mut LruCache, groups: &mut Groups)
    ensures
        holds_decodings(old(cache).pairs()) ==> holds_decodings(final(cache).pairs()),
        holds_decodings(old(cache).pairs()) ==> final(groups)@ == match row_edge_property(
            row_bytes(row),
        ) {
            Some((to, property)) => with_property(old(groups)@, to, property.0, property.1),
            None => old(groups)@,
        },
{
    let (row_key, row_value) = row;
    if let Some((_, to, key)) = split_three(row_key.as_str()) {
        if let Some(to) = decode_component_cached(to, cache) {
            if let Some(key) = decode_component_cached(key, cache) {
                groups.add(to.as_str(), key, row_value);
            }
        }
    }
}

/// The ids of the nodes that have the value under the key, as the node
/// index names them, in the order of its rows.
pub fn node_ids_by_index(index: &Snapshot, key: &str, value: &str) -> (r: Result<
    Vec<String>,
    redb::Error,
>)
    ensures
        r matches Ok(ids) ==> strings_utf8(ids@) == ids_of_rows(
            prefix_rows(snapshot_rows(index), prefix2(utf8(key@), utf8(value@))),
        ) && has_scan(snapshot_rows(index), prefix2(utf8(key@), utf8(value@))),
{
    let prefix = index_prefix(key, value);
    let scan = scan_rows(index, prefix.as_str())?;
    decode_row_ids(scan)
}

/// The ids of the nodes whose value under the key starts with `prefix`, as
/// the geo index names them, in the order of its rows.
pub fn node_ids_by_geo_prefix(geo: &Snapshot, key: &str, prefix: &str) -> (r: Result<
    Vec<String>,
    redb::Error,
>)
    ensures
        r matches Ok(ids) ==> strings_utf8(ids@) == ids_of_rows(
            prefix_rows(snapshot_rows(geo), join2(utf8(key@), utf8(prefix@))),
        ),
{
    let start = geo_index_prefix(key, prefix);
    let scan = scan_rows(geo, start.as_str())?;
    decode_row_ids(scan)
}

/// The node ids that the index rows of a walk name. A walk that has come
/// to its end reads no more: it names no id, and nothing can fail.
pub fn decode_row_ids(scan: PrefixScan) -> (r: Result<Vec<String>, redb::Error>)
    ensures
        r matches Ok(ids) ==> strings_utf8(ids@) == ids_of_rows(scan.rest()),
        scan.is_over() ==> r is Ok,
{
    let mut walk = scan;
    let ghost pairs = walk.rest();
    let mut cache = LruCache::new(2048);
    let mut ids: Vec<String> = Vec::new();
    let ghost mut i: int = 0;
    let mut row = walk.next()?;
    proof {
        if pairs.len() > 0 {
            assert(pairs.drop_first() =~= pairs.skip(1));
        }
        assert(pairs.take(0) =~= Seq::<Pair>::empty());
        assert(strings_utf8(ids@) =~= Seq::<Seq<u8>>::empty());
    }
    while row.is_some()
        invariant
            0 <= i <= pairs.len(),
            row_ahead(row, walk.rest(), pairs, i),
            holds_decodings(cache.pairs()),
            scan.is_over() ==> row is None,
            strings_utf8(ids@) == ids_of_rows(pairs.take(i)),
        decreases pairs.len() - i,
    {
        proof {
            assert(pairs.take(i + 1).drop_last() =~= pairs.take(i));
            assert(pairs.take(i + 1).last() == pairs[i]);
        }
        let found = row.unwrap();
        add_row_id(&found, &mut cache, &mut ids);
        proof {
            i = i + 1;
        }
        row = walk.next()?;
        proof {
            if i < pairs.len() {
                assert(pairs.skip(i).drop_first() =~= pairs.skip(i + 1));
            }
        }
    }
    proof {
        assert(pairs.take(i) =~= pairs);
    }
    Ok(ids)
}

/// The edges that have the value under the key, as the edge index names
/// them, in the order of its rows.
pub fn edge_ids_by_index(index: &Snapshot, key: &str, value: &str) -> (r: Result<
    Vec<(String, String)>,
    redb::Error,
>)
    ensures
        r matches Ok(edges) ==> string_pairs(edges@) == edges_of_rows(
            prefix_rows(snapshot_rows(index), prefix2(utf8(key@), utf8(value@))),
        ) && has_scan(snapshot_rows(index), prefix2(utf8(key@), utf8(value@))),
{
    let prefix = index_prefix(key, value);
    let mut scan = scan_rows(index, prefix.as_str())?;
    let ghost pairs = scan.rest();
    let mut cache = LruCache::new(2048);
    let mut edges: Vec<(String, String)> = Vec::new();
    let ghost mut i: int = 0;
    let mut row = scan.next()?;
    proof {
        if pairs.len() > 0 {
            assert(pairs.drop_first() =~= pairs.skip(1));
        }
        assert(pairs.take(0) =~= Seq::<Pair>::empty());
        assert(string_pairs(edges@) =~= Seq::<(Seq<u8>, Seq<u8>)>::empty());
    }
    while row.is_some()
        invariant
            0 <= i <= pairs.len(),
            row_ahead(row, scan.rest(), pairs, i),
            holds_decodings(cache.pairs()),
            string_pairs(edges@) == edges_of_rows(pairs.take(i)),
        decreases pairs.len() - i,
    {
        proof {
            assert(pairs.take(i + 1).drop_last() =~= pairs.take(i));
            assert(pairs.take(i + 1).last() == pairs[i]);
        }
        let found = row.unwrap();
        add_row_edge(&found, &mut cache, &mut edges);
        proof {
            i = i + 1;
        }
        row = scan.next()?;
        proof {
            if i < pairs.len() {
                assert(pairs.skip(i).drop_first() =~= pairs.skip(i + 1));
            }
        }
    }
    proof {
        assert(pairs.take(i) =~= pairs);
    }
    Ok(edges)
}

/// The properties of a node, as its property rows hold them.
pub fn load_node_data_for_id(node_data: &Snapshot, node_id: &str) -> (r: Result<
    PropertyMap,
    redb::Error,
>)
    ensures
        r matches Ok(data) ==> data@ == properties_of_rows(
            prefix_rows(snapshot_rows(node_data), prefix1(utf8(node_id@))),
        ),
{
    let prefix = node_data_prefix(node_id);
    let mut scan = scan_rows(node_data, prefix.as_str())?;
    let ghost pairs = scan.rest();
    let mut cache = LruCache::new(1024);
    let mut data = PropertyMap::new();
    let ghost mut i: int = 0;
    let mut row = scan.next()?;
    proof {
        if pairs.len() > 0 {
            assert(pairs.drop_first() =~= pairs.skip(1));
        }
        assert(pairs.take(0) =~= Seq::<Pair>::empty());
    }
    while row.is_some()
        invariant
            0 <= i <= pairs.len(),
            row_ahead(row, scan.rest(), pairs, i),
            holds_decodings(cache.pairs()),
            data@ == properties_of_rows(pairs.take(i)),
        decreases pairs.len() - i,
    {
        proof {
            assert(pairs.take(i + 1).drop_last() =~= pairs.take(i));
            assert(pairs.take(i + 1).last() == pairs[i]);
        }
        add_row_property(row.unwrap(), &mut cache, &mut data);
        proof {
            i = i + 1;
        }
        row = scan.next()?;
        proof {
            if i < pairs.len() {
                assert(pairs.skip(i).drop_first() =~= pairs.skip(i + 1));
            }
        }
    }
    proof {
        assert(pairs.take(i) =~= pairs);
    }
    Ok(data)
}

/// The properties of one edge, as its property rows hold them.
pub fn load_edge_data_for_edge(edge_data: &Snapshot, from: &str, to: &str) -> (r: Result<
    PropertyMap,
    redb::Error,
>)
    ensures
        r matches Ok(data) ==> data@ == edge_properties_of_rows(
            prefix_rows(snapshot_rows(edge_data), prefix2(utf8(from@), utf8(to@))),
        ),
{
    let prefix = edge_data_prefix(from, to);
    let mut scan = scan_rows(edge_data, prefix.as_str())?;
    let ghost pairs = scan.rest();
    let mut cache = LruCache::new(512);
    let mut data = PropertyMap::new();
    let ghost mut i: int = 0;
    let mut row = scan.next()?;
    proof {
        if pairs.len() > 0 {
            assert(pairs.drop_first() =~= pairs.skip(1));
        }
        assert(pairs.take(0) =~= Seq::<Pair>::empty());
    }
    while row.is_some()
        invariant
            0 <= i <= pairs.len(),
            row_ahead(row, scan.rest(), pairs, i),
            holds_decodings(cache.pairs()),
            data@ == edge_properties_of_rows(pairs.take(i)),
        decreases pairs.len() - i,
    {
        proof {
            assert(pairs.take(i + 1).drop_last() =~= pairs.take(i));
            assert(pairs.take(i + 1).last() == pairs[i]);
        }
        add_row_third_property(row.unwrap(), &mut cache, &mut data);
        proof {
            i = i + 1;
        }
        row = scan.next()?;
        proof {
            if i < pairs.len() {
                assert(pairs.skip(i).drop_first() =~= pairs.skip(i + 1));
            }
        }
    }
    proof {
        assert(pairs.take(i) =~= pairs);
    }
    Ok(data)
}

/// The properties of the edges out of a node, under the target of each
/// edge, as the property rows of the edges hold them.
pub fn load_edge_data_for_from(edge_data: &Snapshot, from: &str) -> (r: Result<Groups, redb::Error>)
    ensures
        r matches Ok(groups) ==> groups@ == groups_of_rows(
            prefix_rows(snapshot_rows(edge_data), prefix1(utf8(from@))),
        ),
{
    let prefix = edge_from_prefix(from);
    let mut scan = scan_rows(edge_data, prefix.as_str())?;
    let ghost pairs = scan.rest();
    let mut cache = LruCache::new(1024);
    let mut groups = Groups::new();
    let ghost mut i: int = 0;
    let mut row = scan.next()?;
    proof {
        if pairs.len() > 0 {
            assert(pairs.drop_first() =~= pairs.skip(1));
        }
        assert(pairs.take(0) =~= Seq::<Pair>::empty());
    }
    while row.is_some()
        invariant
            0 <= i <= pairs.len(),
            row_ahead(row, scan.rest(), pairs, i),
            holds_decodings(cache.pairs()),
            groups@ == groups_of_rows(pairs.take(i)),
        decreases pairs.len() - i,
    {
        proof {
            assert(pairs.take(i + 1).drop_last() =~= pairs.take(i));
            assert(pairs.take(i + 1).last() == pairs[i]);
        }
        add_row_group(row.unwrap(), &mut cache, &mut groups);
        proof {
            i = i + 1;
        }
        row = scan.next()?;
        proof {
            if i < pairs.len() {
                assert(pairs.skip(i).drop_first() =~= pairs.skip(i + 1));
            }
        }
    }
    proof {
        assert(pairs.take(i) =~= pairs);
    }
    Ok(groups)
}

/// The bytes of a list of strings with their properties.
pub open spec fn keyed_properties(items: Seq<(String, PropertyMap)>) -> Seq<(Seq<u8>, Properties)> {
    items.map_values(|item: (String, PropertyMap)| (utf8(item.0@), item.1@))
}

/// The stored properties of those nodes of a list whose properties are
/// those of an active node, in the order of the list.
pub open spec fn active_properties(table: Map<Seq<u8>, Seq<u8>>, ids: Seq<Seq<u8>>) -> Seq<
    (Seq<u8>, Properties),
>
    decreases ids.len(),
{
    if ids.len() == 0 {
        Seq::empty()
    } else {
        let before = active_properties(table, ids.drop_last());
        let data = properties_of_rows(prefix_rows(table, prefix1(ids.last())));
        if active_data(data) {
            before.push((ids.last(), data))
        } else {
            before
        }
    }
}

/// Adds a node with its stored properties to `found` if they are those of
/// an active node.
pub fn add_if_active(id: &str, data: PropertyMap, found: &mut Vec<(String, PropertyMap)>)
    ensures
        keyed_properties(final(found)@) == if active_data(data@) {
            keyed_properties(old(found)@).push((utf8(id@), data@))
        } else {
            keyed_properties(old(found)@)
        },
{
    let ghost before = keyed_properties(found@);
    if is_active_data(&data) {
        found.push((id.to_owned(), data));
        proof {
            assert(keyed_properties(found@) =~= before.push((utf8(id@), data@)));
        }
    }
}

/// The stored properties of the active nodes among `ids`. With no ids
/// nothing is read, and the result is the empty list.
pub fn node_data_for_ids(node_data: &Snapshot, ids: &Vec<String>) -> (r: Result<
    Vec<(String, PropertyMap)>,
    redb::Error,
>)
    ensures
        r matches Ok(found) ==> keyed_properties(found@) == active_properties(
            snapshot_rows(node_data),
            strings_utf8(ids@),
        ),
        ids@.len() == 0 ==> r is Ok,
{
    let ghost all = strings_utf8(ids@);
    let mut found: Vec<(String, PropertyMap)> = Vec::new();
    let mut i: usize = 0;
    proof {
        assert(all.take(0) =~= Seq::<Seq<u8>>::empty());
        assert(keyed_properties(found@) =~= Seq::<(Seq<u8>, Properties)>::empty());
    }
    while i < ids.len()
        invariant
            0 <= i <= ids.len(),
            all == strings_utf8(ids@),
            keyed_properties(found@) == active_properties(
                snapshot_rows(node_data),
                all.take(i as int),
            ),
        decreases ids.len() - i,
    {
        proof {
            assert(all.take(i + 1).drop_last() =~= all.take(i as int));
            assert(all.take(i + 1).last() == all[i as int]);
        }
        let data = load_node_data_for_id(node_data, ids[i].as_str())?;
        add_if_active(ids[i].as_str(), data, &mut found);
        i += 1;
    }
    proof {
        assert(all.take(i as int) =~= all);
    }
    Ok(found)
}

} // verus!
