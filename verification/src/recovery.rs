use vstd::prelude::*;
use crate::text::{utf8, strings_utf8, str_eq, lex_le, lex_lt};
use crate::codec::{decode};
use crate::keys::{cut2, cut3, cut2_decoded, cut3_decoded, join2, join3, join4, split_two, split_three, split_two_decoded, split_three_decoded, edge_key, node_data_key, node_index_key, geo_index_key, edge_data_key, edge_index_key};
use crate::props::Pair;
use crate::idset::IdSet;
use crate::lru::{LruCache, holds_decodings, decode_component_cached};
use crate::schema::{STATUS_KEY, STATUS_ACTIVE, STATUS_DELETED};
use crate::store::{Snapshot, WriteTable, snapshot_rows, table_rows, snapshot_range, cursor_next, cursor_rest, table_insert, scan_rows, row_ahead, row_bytes};
use crate::index::{Rows, NodeRows, EdgeRows, node_rows_of, edge_rows_of, edge_upsert, edge_rows_coherent, upsert_edge_property, lemma_edge_upsert_coherent};
use crate::reads::string_pairs;
use crate::views::{all_rows, row_ends};

verus! {

/// What the first step of a cursor over all rows says of a table: it is
/// empty where the cursor is at its end, not empty where the cursor gives a
/// row, and the failure of the cursor is handed on.
pub fn no_first_row(got: Option<Result<(String, String), redb::Error>>) -> (r: Result<
    bool,
    redb::Error,
>)
    ensures
        match got {
            None => r matches Ok(true),
            Some(Ok(_)) => r matches Ok(false),
            Some(Err(error)) => r matches Err(same) && same == error,
        },
{
    match got {
        None => Ok(true),
        Some(Ok(_)) => Ok(false),
        Some(Err(error)) => Err(error),
    }
}

/// Whether a snapshot holds no row at all.
pub fn snapshot_is_empty(table: &Snapshot) -> (r: Result<bool, redb::Error>)
    ensures
        r matches Ok(empty) ==> empty == (forall|key: Seq<u8>| !snapshot_rows(table).contains_key(key)),
{
    proof {
        reveal_strlit("");
        assert(utf8(""@) =~= Seq::<u8>::empty());
    }
    let mut cursor = snapshot_range(table, "")?;
    let ghost all = cursor_rest(&cursor);
    let got = cursor_next(&mut cursor);
    proof {
        match got {
            None => {
                assert forall|key: Seq<u8>| !snapshot_rows(table).contains_key(key) by {
                    if snapshot_rows(table).contains_key(key) {
                        if key.len() > 0 {
                            assert(lex_lt(Seq::<u8>::empty(), key));
                        } else {
                            assert(key =~= Seq::<u8>::empty());
                        }
                        assert(lex_le(Seq::<u8>::empty(), key));
                        assert(crate::assoc::has_key(all, key));
                    }
                }
            },
            Some(Ok(_)) => {
                assert(snapshot_rows(table).contains_key(all[0].0));
            },
            Some(Err(_)) => {},
        }
    }
    no_first_row(got)
}

/// The index entry that a property row of a node asks for: the key and the
/// value of the property and the id of the node, where the key of the row
/// cuts and decodes.
pub open spec fn node_entry_of_row(row: Pair) -> Option<Seq<u8>> {
    match cut2_decoded(row.0) {
        Some((id, key)) => Some(join3(key, row.1, id)),
        None => None,
    }
}

/// The index entry that a property row of an edge asks for.
pub open spec fn edge_entry_of_row(row: Pair) -> Option<Seq<u8>> {
    match cut3_decoded(row.0) {
        Some((from, to, key)) => Some(join4(key, row.1, from, to)),
        None => None,
    }
}

/// The index entries that the property rows of the nodes ask for, in the
/// order of the rows.
pub open spec fn node_entries_of_rows(rows: Seq<Pair>) -> Seq<Seq<u8>>
    decreases rows.len(),
{
    if rows.len() == 0 {
        Seq::empty()
    } else {
        let before = node_entries_of_rows(rows.drop_last());
        match node_entry_of_row(rows.last()) {
            Some(entry) => before.push(entry),
            None => before,
        }
    }
}

/// The index entries that the property rows of the edges ask for, in the
/// order of the rows.
pub open spec fn edge_entries_of_rows(rows: Seq<Pair>) -> Seq<Seq<u8>>
    decreases rows.len(),
{
    if rows.len() == 0 {
        Seq::empty()
    } else {
        let before = edge_entries_of_rows(rows.drop_last());
        match edge_entry_of_row(rows.last()) {
            Some(entry) => before.push(entry),
            None => before,
        }
    }
}

/// A table with each entry as a key of an empty value.
pub open spec fn with_entries(rows: Rows, entries: Seq<Seq<u8>>) -> Rows
    decreases entries.len(),
{
    if entries.len() == 0 {
        rows
    } else {
        with_entries(rows, entries.drop_last()).insert(entries.last(), Seq::empty())
    }
}

/// Adds to `entries` the index entry that a property row of a node asks
/// for; a row that asks for none is passed over.
pub fn add_node_entry(row: &(String, String), entries: &mut Vec<String>)
    ensures
        strings_utf8(final(entries)@) == match node_entry_of_row(row_bytes(*row)) {
            Some(entry) => strings_utf8(old(entries)@).push(entry),
            None => strings_utf8(old(entries)@),
        },
{
    let ghost before = strings_utf8(entries@);
    if let Some((id, key)) = split_two_decoded(row.0.as_str()) {
        let entry = node_index_key(key.as_str(), row.1.as_str(), id.as_str());
        entries.push(entry);
        proof {
            assert(strings_utf8(entries@) =~= before.push(utf8(entry@)));
        }
    }
}

/// Adds to `entries` the index entry that a property row of an edge asks
/// for; a row that asks for none is passed over.
pub fn add_edge_entry(row: &(String, String), entries: &mut Vec<String>)
    ensures
        strings_utf8(final(entries)@) == match edge_entry_of_row(row_bytes(*row)) {
            Some(entry) => strings_utf8(old(entries)@).push(entry),
            None => strings_utf8(old(entries)@),
        },
{
    let ghost before = strings_utf8(entries@);
    if let Some((from, to, key)) = split_three_decoded(row.0.as_str()) {
        let entry = edge_index_key(key.as_str(), row.1.as_str(), from.as_str(), to.as_str());
        entries.push(entry);
        proof {
            assert(strings_utf8(entries@) =~= before.push(utf8(entry@)));
        }
    }
}

/// The entries that an index over the node properties of a snapshot holds.
pub fn index_entries_for_nodes(node_data: &Snapshot) -> (r: Result<Vec<String>, redb::Error>)
    ensures
        r matches Ok(entries) ==> strings_utf8(entries@) == node_entries_of_rows(
            all_rows(snapshot_rows(node_data)),
        ),
{
    proof {
        reveal_strlit("");
        assert(utf8(""@) =~= Seq::<u8>::empty());
    }
    let mut scan = scan_rows(node_data, "")?;
    let ghost pairs = scan.rest();
    let mut entries: Vec<String> = Vec::new();
    let ghost mut i: int = 0;
    let mut row = scan.next()?;
    proof {
        if pairs.len() > 0 {
            assert(pairs.drop_first() =~= pairs.skip(1));
        }
        assert(pairs.take(0) =~= Seq::<Pair>::empty());
        assert(strings_utf8(entries@) =~= Seq::<Seq<u8>>::empty());
    }
    while row.is_some()
        invariant
            0 <= i <= pairs.len(),
            row_ahead(row, scan.rest(), pairs, i),
            strings_utf8(entries@) == node_entries_of_rows(pairs.take(i)),
        decreases pairs.len() - i,
    {
        proof {
            assert(pairs.take(i + 1).drop_last() =~= pairs.take(i));
            assert(pairs.take(i + 1).last() == pairs[i]);
        }
        let found = row.unwrap();
        add_node_entry(&found, &mut entries);
        proof {
            i = i + 1;
        }
        row = scan.next()?;
        proof {
            if i < pairs.len() {
                assert(pairs.skip(i).drop_first() =~= pairs.skip(i + 1));
            }
        }
    }
    proof {
        assert(pairs.take(i) =~= pairs);
    }
    Ok(entries)
}

/// The entries that the index over the edge properties of a snapshot holds.
pub fn index_entries_for_edges(edge_data: &Snapshot) -> (r: Result<Vec<String>, redb::Error>)
    ensures
        r matches Ok(entries) ==> strings_utf8(entries@) == edge_entries_of_rows(
            all_rows(snapshot_rows(edge_data)),
        ),
{
    proof {
        reveal_strlit("");
        assert(utf8(""@) =~= Seq::<u8>::empty());
    }
    let mut scan = scan_rows(edge_data, "")?;
    let ghost pairs = scan.rest();
    let mut entries: Vec<String> = Vec::new();
    let ghost mut i: int = 0;
    let mut row = scan.next()?;
    proof {
        if pairs.len() > 0 {
            assert(pairs.drop_first() =~= pairs.skip(1));
        }
        assert(pairs.take(0) =~= Seq::<Pair>::empty());
        assert(strings_utf8(entries@) =~= Seq::<Seq<u8>>::empty());
    }
    while row.is_some()
        invariant
            0 <= i <= pairs.len(),
            row_ahead(row, scan.rest(), pairs, i),
            strings_utf8(entries@) == edge_entries_of_rows(pairs.take(i)),
        decreases pairs.len() - i,
    {
        proof {
            assert(pairs.take(i + 1).drop_last() =~= pairs.take(i));
            assert(pairs.take(i + 1).last() == pairs[i]);
        }
        let found = row.unwrap();
        add_edge_entry(&found, &mut entries);
        proof {
            i = i + 1;
        }
        row = scan.next()?;
        proof {
            if i < pairs.len() {
                assert(pairs.skip(i).drop_first() =~= pairs.skip(i + 1));
            }
        }
    }
    proof {
        assert(pairs.take(i) =~= pairs);
    }
    Ok(entries)
}

/// Puts each entry into an index table, as a key of an empty value. With
/// no entries the table is not touched, and nothing can fail.
pub fn insert_entries(table: &mut WriteTable<'_>, entries: &Vec<String>) -> (r: Result<
    (),
    redb::Error,
>)
    ensures
        r is Ok ==> table_rows(final(table)) == with_entries(
            table_rows(old(table)),
            strings_utf8(entries@),
        ),
        entries@.len() == 0 ==> r is Ok,
{
    let ghost before = table_rows(table);
    let ghost all = strings_utf8(entries@);
    let mut i: usize = 0;
    proof {
        assert(all.take(0) =~= Seq::<Seq<u8>>::empty());
        reveal_strlit("");
        assert(utf8(""@) =~= Seq::<u8>::empty());
    }
    while i < entries.len()
        invariant
            0 <= i <= entries.len(),
            all == strings_utf8(entries@),
            utf8(""@) == Seq::<u8>::empty(),
            table_rows(table) == with_entries(before, all.take(i as int)),
        decreases entries.len() - i,
    {
        proof {
            assert(all.take(i + 1).drop_last() =~= all.take(i as int));
            assert(all.take(i + 1).last() == all[i as int]);
        }
        table_insert(table, entries[i].as_str(), "")?;
        i += 1;
    }
    proof {
        assert(all.take(i as int) =~= all);
    }
    Ok(())
}

/// The node whose property row has the key `status`.
pub open spec fn row_status_owner(row: Pair) -> Option<Seq<u8>> {
    match cut2(row.0) {
        Some((id, key)) => match (decode(id), decode(key)) {
            (Some(id), Some(key)) => if key == utf8(STATUS_KEY@) {
                Some(id)
            } else {
                None
            },
            _ => None,
        },
        None => None,
    }
}

/// The nodes that have a property row with the key `status`.
pub open spec fn nodes_with_status(rows: Seq<Pair>) -> Set<Seq<u8>>
    decreases rows.len(),
{
    if rows.len() == 0 {
        Set::empty()
    } else {
        let before = nodes_with_status(rows.drop_last());
        match row_status_owner(rows.last()) {
            Some(id) => before.insert(id),
            None => before,
        }
    }
}

/// The key of the edge whose property row has the key `status`.
pub open spec fn row_status_edge(row: Pair) -> Option<Seq<u8>> {
    match cut3(row.0) {
        Some((from, to, key)) => match (decode(from), decode(to), decode(key)) {
            (Some(from), Some(to), Some(key)) => if key == utf8(STATUS_KEY@) {
                Some(join2(from, to))
            } else {
                None
            },
            _ => None,
        },
        None => None,
    }
}

/// The keys of the edges that have a property row with the key `status`.
pub open spec fn edges_with_status(rows: Seq<Pair>) -> Set<Seq<u8>>
    decreases rows.len(),
{
    if rows.len() == 0 {
        Set::empty()
    } else {
        let before = edges_with_status(rows.drop_last());
        match row_status_edge(rows.last()) {
            Some(edge) => before.insert(edge),
            None => before,
        }
    }
}

/// The nodes of the node table that are not among those with a status, in
/// the order of the table.
pub open spec fn nodes_missing(rows: Seq<Pair>, with_status: Set<Seq<u8>>) -> Seq<Seq<u8>>
    decreases rows.len(),
{
    if rows.len() == 0 {
        Seq::empty()
    } else {
        let before = nodes_missing(rows.drop_last(), with_status);
        match decode(rows.last().0) {
            Some(id) => if with_status.contains(id) {
                before
            } else {
                before.push(id)
            },
            None => before,
        }
    }
}

/// The edges of the edge table that are not among those with a status, in
/// the order of the table.
pub open spec fn edges_missing(rows: Seq<Pair>, with_status: Set<Seq<u8>>) -> Seq<
    (Seq<u8>, Seq<u8>),
>
    decreases rows.len(),
{
    if rows.len() == 0 {
        Seq::empty()
    } else {
        let before = edges_missing(rows.drop_last(), with_status);
        match row_ends(rows.last()) {
            Some((from, to)) => if with_status.contains(join2(from, to)) {
                before
            } else {
                before.push((from, to))
            },
            None => before,
        }
    }
}

/// Notes the node of a property row whose key is `status`; another row is
/// passed over.
pub fn note_node_status(row: &(String, String), cache: &mut LruCache, with_status: &mut IdSet)
    ensures
        holds_decodings(old(cache).pairs()) ==> holds_decodings(final(cache).pairs()),
        holds_decodings(old(cache).pairs()) ==> final(with_status)@ == match row_status_owner(
            row_bytes(*row),
        ) {
            Some(id) => old(with_status)@.insert(id),
            None => old(with_status)@,
        },
{
    if let Some((id, key)) = split_two(row.0.as_str()) {
        if let Some(id) = decode_component_cached(id, cache) {
            if let Some(key) = decode_component_cached(key, cache) {
                if str_eq(key.as_str(), STATUS_KEY) {
                    with_status.insert(id);
                }
            }
        }
    }
}

/// Notes the edge of a property row whose key is `status`, by the key of
/// the edge; another row is passed over.
pub fn note_edge_status(row: &(String, String), cache: &mut LruCache, with_status: &mut IdSet)
    ensures
        holds_decodings(old(cache).pairs()) ==> holds_decodings(final(cache).pairs()),
        holds_decodings(old(cache).pairs()) ==> final(with_status)@ == match row_status_edge(
            row_bytes(*row),
        ) {
            Some(edge) => old(with_status)@.insert(edge),
            None => old(with_status)@,
        },
{
    if let Some((from, to, key)) = split_three(row.0.as_str()) {
        if let Some(from) = decode_component_cached(from, cache) {
            if let Some(to) = decode_component_cached(to, cache) {
                if let Some(key) = decode_component_cached(key, cache) {
                    if str_eq(key.as_str(), STATUS_KEY) {
                        with_status.insert(edge_key(from.as_str(), to.as_str()));
                    }
                }
            }
        }
    }
}

/// Adds to `missing` the node of a row of the node table, unless it is
/// among those with a status; a row whose key does not decode is passed
/// over.
pub fn add_node_if_missing(
    row: &(String, String),
    cache: &mut LruCache,
    with_status: &IdSet,
    missing: &mut Vec<String>,
)
    ensures
        holds_decodings(old(cache).pairs()) ==> holds_decodings(final(cache).pairs()),
        holds_decodings(old(cache).pairs()) ==> strings_utf8(final(missing)@) == match decode(
            utf8(row.0@),
        ) {
            Some(id) => if with_status@.contains(id) {
                strings_utf8(old(missing)@)
            } else {
                strings_utf8(old(missing)@).push(id)
            },
            None => strings_utf8(old(missing)@),
        },
{
    let ghost before = strings_utf8(missing@);
    if let Some(id) = decode_component_cached(row.0.as_str(), cache) {
        if !with_status.contains(id.as_str()) {
            missing.push(id);
            proof {
                assert(strings_utf8(missing@) =~= before.push(utf8(id@)));
            }
        }
    }
}

/// Adds to `missing` the edge of a row of the edge table, unless it is
/// among those with a status; a row that names no edge is passed over.
pub fn add_edge_if_missing(
    row: &(String, String),
    cache: &mut LruCache,
    with_status: &IdSet,
    missing: &mut Vec<(String, String)>,
)
    ensures
        holds_decodings(old(cache).pairs()) ==> holds_decodings(final(cache).pairs()),
        holds_decodings(old(cache).pairs()) ==> string_pairs(final(missing)@) == match row_ends(
            row_bytes(*row),
        ) {
            Some((from, to)) => if with_status@.contains(join2(from, to)) {
                string_pairs(old(missing)@)
            } else {
                string_pairs(old(missing)@).push((from, to))
            },
            None => string_pairs(old(missing)@),
        },
{
    let ghost before = string_pairs(missing@);
    if let Some((from, to)) = split_two(row.0.as_str()) {
        if let Some(from) = decode_component_cached(from, cache) {
            if let Some(to) = decode_component_cached(to, cache) {
                let key = edge_key(from.as_str(), to.as_str());
                if !with_status.contains(key.as_str()) {
                    missing.push((from, to));
                    proof {
                        assert(string_pairs(missing@) =~= before.push((utf8(from@), utf8(to@))));
                    }
                }
            }
        }
    }
}

/// The nodes of a snapshot that have no status.
pub fn nodes_without_status(nodes: &Snapshot, node_data: &Snapshot) -> (r: Result<
    Vec<String>,
    redb::Error,
>)
    ensures
        r matches Ok(missing) ==> strings_utf8(missing@) == nodes_missing(
            all_rows(snapshot_rows(nodes)),
            nodes_with_status(all_rows(snapshot_rows(node_data))),
        ),
{
    proof {
        reveal_strlit("");
        assert(utf8(""@) =~= Seq::<u8>::empty());
    }
    let mut cache = LruCache::new(4096);
    let mut scan = scan_rows(node_data, "")?;
    let ghost pairs = scan.rest();
    let mut with_status = IdSet::new();
    let ghost mut i: int = 0;
    let mut row = scan.next()?;
    proof {
        if pairs.len() > 0 {
            assert(pairs.drop_first() =~= pairs.skip(1));
        }
        assert(pairs.take(0) =~= Seq::<Pair>::empty());
    }
    while row.is_some()
        invariant
            0 <= i <= pairs.len(),
            row_ahead(row, scan.rest(), pairs, i),
            holds_decodings(cache.pairs()),
            with_status@ == nodes_with_status(pairs.take(i)),
        decreases pairs.len() - i,
    {
        proof {
            assert(pairs.take(i + 1).drop_last() =~= pairs.take(i));
            assert(pairs.take(i + 1).last() == pairs[i]);
        }
        let found = row.unwrap();
        note_node_status(&found, &mut cache, &mut with_status);
        proof {
            i = i + 1;
        }
        row = scan.next()?;
        proof {
            if i < pairs.len() {
                assert(pairs.skip(i).drop_first() =~= pairs.skip(i + 1));
            }
        }
    }
    proof {
        assert(pairs.take(i) =~= pairs);
    }
    let mut scan = scan_rows(nodes, "")?;
    let ghost pairs = scan.rest();
    let mut missing: Vec<String> = Vec::new();
    let ghost mut i: int = 0;
    let mut row = scan.next()?;
    proof {
        if pairs.len() > 0 {
            assert(pairs.drop_first() =~= pairs.skip(1));
        }
        assert(pairs.take(0) =~= Seq::<Pair>::empty());
        assert(strings_utf8(missing@) =~= Seq::<Seq<u8>>::empty());
    }
    while row.is_some()
        invariant
            0 <= i <= pairs.len(),
            row_ahead(row, scan.rest(), pairs, i),
            holds_decodings(cache.pairs()),
            strings_utf8(missing@) == nodes_missing(pairs.take(i), with_status@),
        decreases pairs.len() - i,
    {
        proof {
            assert(pairs.take(i + 1).drop_last() =~= pairs.take(i));
            assert(pairs.take(i + 1).last() == pairs[i]);
        }
        let found = row.unwrap();
        add_node_if_missing(&found, &mut cache, &with_status, &mut missing);
        proof {
            i = i + 1;
        }
        row = scan.next()?;
        proof {
            if i < pairs.len() {
                assert(pairs.skip(i).drop_first() =~= pairs.skip(i + 1));
            }
        }
    }
    proof {
        assert(pairs.take(i) =~= pairs);
    }
    Ok(missing)
}

/// The edges of a snapshot that have no status.
pub fn edges_without_status(edges: &Snapshot, edge_data: &Snapshot) -> (r: Result<
    Vec<(String, String)>,
    redb::Error,
>)
    ensures
        r matches Ok(missing) ==> string_pairs(missing@) == edges_missing(
            all_rows(snapshot_rows(edges)),
            edges_with_status(all_rows(snapshot_rows(edge_data))),
        ),
{
    proof {
        reveal_strlit("");
        assert(utf8(""@) =~= Seq::<u8>::empty());
    }
    let mut cache = LruCache::new(4096);
    let mut scan = scan_rows(edge_data, "")?;
    let ghost pairs = scan.rest();
    let mut with_status = IdSet::new();
    let ghost mut i: int = 0;
    let mut row = scan.next()?;
    proof {
        if pairs.len() > 0 {
            assert(pairs.drop_first() =~= pairs.skip(1));
        }
        assert(pairs.take(0) =~= Seq::<Pair>::empty());
    }
    while row.is_some()
        invariant
            0 <= i <= pairs.len(),
            row_ahead(row, scan.rest(), pairs, i),
            holds_decodings(cache.pairs()),
            with_status@ == edges_with_status(pairs.take(i)),
        decreases pairs.len() - i,
    {
        proof {
            assert(pairs.take(i + 1).drop_last() =~= pairs.take(i));
            assert(pairs.take(i + 1).last() == pairs[i]);
        }
        let found = row.unwrap();
        note_edge_status(&found, &mut cache, &mut with_status);
        proof {
            i = i + 1;
        }
        row = scan.next()?;
        proof {
            if i < pairs.len() {
                assert(pairs.skip(i).drop_first() =~= pairs.skip(i + 1));
            }
        }
    }
    proof {
        assert(pairs.take(i) =~= pairs);
    }
    let mut scan = scan_rows(edges, "")?;
    let ghost pairs = scan.rest();
    let mut missing: Vec<(String, String)> = Vec::new();
    let ghost mut i: int = 0;
    let mut row = scan.next()?;
    proof {
        if pairs.len() > 0 {
            assert(pairs.drop_first() =~= pairs.skip(1));
        }
        assert(pairs.take(0) =~= Seq::<Pair>::empty());
        assert(string_pairs(missing@) =~= Seq::<(Seq<u8>, Seq<u8>)>::empty());
    }
    while row.is_some()
        invariant
            0 <= i <= pairs.len(),
            row_ahead(row, scan.rest(), pairs, i),
            holds_decodings(cache.pairs()),
            string_pairs(missing@) == edges_missing(pairs.take(i), with_status@),
        decreases pairs.len() - i,
    {
        proof {
            assert(pairs.take(i + 1).drop_last() =~= pairs.take(i));
            assert(pairs.take(i + 1).last() == pairs[i]);
        }
        let found = row.unwrap();
        add_edge_if_missing(&found, &mut cache, &with_status, &mut missing);
        proof {
            i = i + 1;
        }
        row = scan.next()?;
        proof {
            if i < pairs.len() {
                assert(pairs.skip(i).drop_first() =~= pairs.skip(i + 1));
            }
        }
    }
    proof {
        assert(pairs.take(i) =~= pairs);
    }
    Ok(missing)
}

/// The node rows once a node has the status `active`, with its entries in
/// both indexes.
pub open spec fn node_backfill(rows: NodeRows, id: Seq<u8>) -> NodeRows {
    let entry = join3(utf8(STATUS_KEY@), utf8(STATUS_ACTIVE@), id);
    NodeRows {
        data: rows.data.insert(join2(id, utf8(STATUS_KEY@)), utf8(STATUS_ACTIVE@)),
        index: rows.index.insert(entry, Seq::empty()),
        geo: rows.geo.insert(entry, Seq::empty()),
    }
}

/// The node rows once each node has the status `active`.
pub open spec fn node_backfill_all(rows: NodeRows, ids: Seq<Seq<u8>>) -> NodeRows
    decreases ids.len(),
{
    if ids.len() == 0 {
        rows
    } else {
        node_backfill(node_backfill_all(rows, ids.drop_last()), ids.last())
    }
}

/// The edge rows once an edge has the status `active`, with its index
/// entry.
pub open spec fn edge_backfill(rows: EdgeRows, edge: (Seq<u8>, Seq<u8>)) -> EdgeRows {
    EdgeRows {
        data: rows.data.insert(join3(edge.0, edge.1, utf8(STATUS_KEY@)), utf8(STATUS_ACTIVE@)),
        index: rows.index.insert(
            join4(utf8(STATUS_KEY@), utf8(STATUS_ACTIVE@), edge.0, edge.1),
            Seq::empty(),
        ),
    }
}

/// The edge rows once each edge has the status `active`.
pub open spec fn edge_backfill_all(rows: EdgeRows, edges: Seq<(Seq<u8>, Seq<u8>)>) -> EdgeRows
    decreases edges.len(),
{
    if edges.len() == 0 {
        rows
    } else {
        edge_backfill(edge_backfill_all(rows, edges.drop_last()), edges.last())
    }
}

/// After a backfill every node of the list has a status row.
pub proof fn lemma_backfill_gives_status(rows: NodeRows, ids: Seq<Seq<u8>>, i: int)
    requires
        0 <= i < ids.len(),
    ensures
        node_backfill_all(rows, ids).data.contains_key(join2(ids[i], utf8(STATUS_KEY@))),
    decreases ids.len(),
{
    if i < ids.len() - 1 {
        lemma_backfill_gives_status(rows, ids.drop_last(), i);
    }
}

/// Gives each node of the list the status `active`, inside a write
/// transaction. With no nodes the tables are not touched, and nothing can
/// fail.
pub fn backfill_node_status(
    data: &mut WriteTable<'_>,
    index: &mut WriteTable<'_>,
    geo: &mut WriteTable<'_>,
    ids: &Vec<String>,
) -> (r: Result<(), redb::Error>)
    ensures
        r is Ok ==> node_rows_of(final(data), final(index), final(geo)) == node_backfill_all(
            node_rows_of(old(data), old(index), old(geo)),
            strings_utf8(ids@),
        ),
        ids@.len() == 0 ==> r is Ok,
{
    let ghost before = node_rows_of(data, index, geo);
    let ghost all = strings_utf8(ids@);
    let mut i: usize = 0;
    proof {
        assert(all.take(0) =~= Seq::<Seq<u8>>::empty());
        reveal_strlit("");
        assert(utf8(""@) =~= Seq::<u8>::empty());
    }
    while i < ids.len()
        invariant
            0 <= i <= ids.len(),
            all == strings_utf8(ids@),
            utf8(""@) == Seq::<u8>::empty(),
            node_rows_of(data, index, geo) == node_backfill_all(before, all.take(i as int)),
        decreases ids.len() - i,
    {
        proof {
            assert(all.take(i + 1).drop_last() =~= all.take(i as int));
            assert(all.take(i + 1).last() == all[i as int]);
        }
        let id = ids[i].as_str();
        let data_key = node_data_key(id, STATUS_KEY);
        table_insert(data, data_key.as_str(), STATUS_ACTIVE)?;
        let index_key = node_index_key(STATUS_KEY, STATUS_ACTIVE, id);
        table_insert(index, index_key.as_str(), "")?;
        let geo_key = geo_index_key(STATUS_KEY, STATUS_ACTIVE, id);
        table_insert(geo, geo_key.as_str(), "")?;
        i += 1;
    }
    proof {
        assert(all.take(i as int) =~= all);
    }
    Ok(())
}

/// Gives each edge of the list the status `active`, inside a write
/// transaction. With no edges the tables are not touched, and nothing can
/// fail.
pub fn backfill_edge_status(
    data: &mut WriteTable<'_>,
    index: &mut WriteTable<'_>,
    edges: &Vec<(String, String)>,
) -> (r: Result<(), redb::Error>)
    ensures
        r is Ok ==> edge_rows_of(final(data), final(index)) == edge_backfill_all(
            edge_rows_of(old(data), old(index)),
            string_pairs(edges@),
        ),
        edges@.len() == 0 ==> r is Ok,
{
    let ghost before = edge_rows_of(data, index);
    let ghost all = string_pairs(edges@);
    let mut i: usize = 0;
    proof {
        assert(all.take(0) =~= Seq::<(Seq<u8>, Seq<u8>)>::empty());
        reveal_strlit("");
        assert(utf8(""@) =~= Seq::<u8>::empty());
    }
    while i < edges.len()
        invariant
            0 <= i <= edges.len(),
            all == string_pairs(edges@),
            utf8(""@) == Seq::<u8>::empty(),
            edge_rows_of(data, index) == edge_backfill_all(before, all.take(i as int)),
        decreases edges.len() - i,
    {
        proof {
            assert(all.take(i + 1).drop_last() =~= all.take(i as int));
            assert(all.take(i + 1).last() == all[i as int]);
        }
        let from = edges[i].0.as_str();
        let to = edges[i].1.as_str();
        let data_key = edge_data_key(from, to, STATUS_KEY);
        table_insert(data, data_key.as_str(), STATUS_ACTIVE)?;
        let index_key = edge_index_key(STATUS_KEY, STATUS_ACTIVE, from, to);
        table_insert(index, index_key.as_str(), "")?;
        i += 1;
    }
    proof {
        assert(all.take(i as int) =~= all);
    }
    Ok(())
}

/// The edges of the edge table that start or end at the node `id`, in the
/// order of the table.
pub open spec fn edges_at(rows: Seq<Pair>, id: Seq<u8>) -> Seq<(Seq<u8>, Seq<u8>)>
    decreases rows.len(),
{
    if rows.len() == 0 {
        Seq::empty()
    } else {
        let before = edges_at(rows.drop_last(), id);
        match row_ends(rows.last()) {
            Some((from, to)) => if from == id || to == id {
                before.push((from, to))
            } else {
                before
            },
            None => before,
        }
    }
}

/// Adds to `found` the edge of a row of the edge table if it starts or ends
/// at the node; another row is passed over.
pub fn add_edge_if_touching(
    row: &(String, String),
    node_id: &str,
    cache: &mut LruCache,
    found: &mut Vec<(String, String)>,
)
    ensures
        holds_decodings(old(cache).pairs()) ==> holds_decodings(final(cache).pairs()),
        holds_decodings(old(cache).pairs()) ==> string_pairs(final(found)@) == match row_ends(
            row_bytes(*row),
        ) {
            Some((from, to)) => if from == utf8(node_id@) || to == utf8(node_id@) {
                string_pairs(old(found)@).push((from, to))
            } else {
                string_pairs(old(found)@)
            },
            None => string_pairs(old(found)@),
        },
{
    let ghost before = string_pairs(found@);
    if let Some((from, to)) = split_two(row.0.as_str()) {
        if let Some(from) = decode_component_cached(from, cache) {
            if let Some(to) = decode_component_cached(to, cache) {
                if str_eq(from.as_str(), node_id) || str_eq(to.as_str(), node_id) {
                    found.push((from, to));
                    proof {
                        assert(string_pairs(found@) =~= before.push((utf8(from@), utf8(to@))));
                    }
                }
            }
        }
    }
}

/// The edges of a snapshot that start or end at a node.
pub fn edges_touching(edges: &Snapshot, node_id: &str) -> (r: Result<
    Vec<(String, String)>,
    redb::Error,
>)
    ensures
        r matches Ok(found) ==> string_pairs(found@) == edges_at(
            all_rows(snapshot_rows(edges)),
            utf8(node_id@),
        ),
{
    proof {
        reveal_strlit("");
        assert(utf8(""@) =~= Seq::<u8>::empty());
    }
    let mut cache = LruCache::new(4096);
    let mut scan = scan_rows(edges, "")?;
    let ghost pairs = scan.rest();
    let mut found: Vec<(String, String)> = Vec::new();
    let ghost mut i: int = 0;
    let mut row = scan.next()?;
    proof {
        if pairs.len() > 0 {
            assert(pairs.drop_first() =~= pairs.skip(1));
        }
        assert(pairs.take(0) =~= Seq::<Pair>::empty());
        assert(string_pairs(found@) =~= Seq::<(Seq<u8>, Seq<u8>)>::empty());
    }
    while row.is_some()
        invariant
            0 <= i <= pairs.len(),
            row_ahead(row, scan.rest(), pairs, i),
            holds_decodings(cache.pairs()),
            string_pairs(found@) == edges_at(pairs.take(i), utf8(node_id@)),
        decreases pairs.len() - i,
    {
        proof {
            assert(pairs.take(i + 1).drop_last() =~= pairs.take(i));
            assert(pairs.take(i + 1).last() == pairs[i]);
        }
        let hit = row.unwrap();
        add_edge_if_touching(&hit, node_id, &mut cache, &mut found);
        proof {
            i = i + 1;
        }
        row = scan.next()?;
        proof {
            if i < pairs.len() {
                assert(pairs.skip(i).drop_first() =~= pairs.skip(i + 1));
            }
        }
    }
    proof {
        assert(pairs.take(i) =~= pairs);
    }
    Ok(found)
}

/// The edge rows once each edge of the list has the status `deleted`.
pub open spec fn edges_marked_deleted(rows: EdgeRows, edges: Seq<(Seq<u8>, Seq<u8>)>) -> EdgeRows
    decreases edges.len(),
{
    if edges.len() == 0 {
        rows
    } else {
        edge_upsert(
            edges_marked_deleted(rows, edges.drop_last()),
            edges.last().0,
            edges.last().1,
            utf8(STATUS_KEY@),
            utf8(STATUS_DELETED@),
        )
    }
}

/// Index coherence: marking edges as deleted keeps the index coherent with
/// the property rows.
pub proof fn lemma_marked_deleted_coherent(rows: EdgeRows, edges: Seq<(Seq<u8>, Seq<u8>)>)
    requires
        edge_rows_coherent(rows),
    ensures
        edge_rows_coherent(edges_marked_deleted(rows, edges)),
    decreases edges.len(),
{
    if edges.len() > 0 {
        lemma_marked_deleted_coherent(rows, edges.drop_last());
        lemma_edge_upsert_coherent(
            edges_marked_deleted(rows, edges.drop_last()),
            edges.last().0,
            edges.last().1,
            utf8(STATUS_KEY@),
            utf8(STATUS_DELETED@),
        );
    }
}

/// Sets the status of each edge of the list to `deleted`, inside a write
/// transaction. With no edges the tables are not touched, and nothing can
/// fail.
pub fn mark_edges_deleted(
    data: &mut WriteTable<'_>,
    index: &mut WriteTable<'_>,
    edges: &Vec<(String, String)>,
) -> (r: Result<(), redb::Error>)
    ensures
        r is Ok ==> edge_rows_of(final(data), final(index)) == edges_marked_deleted(
            edge_rows_of(old(data), old(index)),
            string_pairs(edges@),
        ),
        r is Ok && edge_rows_coherent(edge_rows_of(old(data), old(index))) ==> edge_rows_coherent(
            edge_rows_of(final(data), final(index)),
        ),
        edges@.len() == 0 ==> r is Ok,
{
    let ghost before = edge_rows_of(data, index);
    let ghost all = string_pairs(edges@);
    let mut i: usize = 0;
    proof {
        assert(all.take(0) =~= Seq::<(Seq<u8>, Seq<u8>)>::empty());
    }
    while i < edges.len()
        invariant
            0 <= i <= edges.len(),
            all == string_pairs(edges@),
            edge_rows_of(data, index) == edges_marked_deleted(before, all.take(i as int)),
        decreases edges.len() - i,
    {
        proof {
            assert(all.take(i + 1).drop_last() =~= all.take(i as int));
            assert(all.take(i + 1).last() == all[i as int]);
        }
        upsert_edge_property(
            data,
            index,
            edges[i].0.as_str(),
            edges[i].1.as_str(),
            STATUS_KEY,
            STATUS_DELETED,
        )?;
        i += 1;
    }
    proof {
        assert(all.take(i as int) =~= all);
        if edge_rows_coherent(before) {
            lemma_marked_deleted_coherent(before, all);
        }
    }
    Ok(())
}

} // verus!
