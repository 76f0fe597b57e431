use vstd::prelude::*;
use vstd::utf8::valid_utf8;
use crate::text::utf8;
use crate::codec::{decode, lemma_unescape_escape};
use crate::keys::{join2, join3, join4, lemma_cut2_join2, lemma_cut3_join3, lemma_join2_injective, lemma_join3_injective};
use crate::assoc::has_key;
use crate::props::Pair;
use crate::schema::{STATUS_KEY, STATUS_ACTIVE};
use crate::store::has_scan;
use crate::index::{NodeRows, EdgeRows, node_index_coherent, edge_index_coherent};
use crate::views::{all_rows, row_ends};
use crate::recovery::{node_entry_of_row, edge_entry_of_row, node_entries_of_rows, edge_entries_of_rows, with_entries, row_status_owner, row_status_edge, nodes_with_status, edges_with_status, nodes_missing, edges_missing, node_backfill_all, edge_backfill_all};
use crate::canon::{is_text, node_data_keyed, lemma_decode_escape};
use crate::means::{edge_data_keyed, picked, lemma_picked_members, lemma_empty_prefix};

verus! {

/// A node is among those with a status exactly where some row names it as
/// the owner of a status.
pub proof fn lemma_nodes_with_status_members(rows: Seq<Pair>, id: Seq<u8>)
    ensures
        nodes_with_status(rows).contains(id) <==> exists|i: int|
            0 <= i < rows.len() && row_status_owner(#[trigger] rows[i]) == Some(id),
    decreases rows.len(),
{
    if rows.len() > 0 {
        let less = rows.drop_last();
        lemma_nodes_with_status_members(less, id);
        if exists|i: int| 0 <= i < less.len() && row_status_owner(#[trigger] less[i]) == Some(id) {
            let i = choose|i: int|
                0 <= i < less.len() && row_status_owner(#[trigger] less[i]) == Some(id);
            assert(rows[i] == less[i]);
        }
        if exists|i: int| 0 <= i < rows.len() && row_status_owner(#[trigger] rows[i]) == Some(id) {
            let i = choose|i: int|
                0 <= i < rows.len() && row_status_owner(#[trigger] rows[i]) == Some(id);
            if i < less.len() {
                assert(less[i] == rows[i]);
            }
        }
    }
}

/// An edge is among those with a status exactly where some row names it as
/// the owner of a status.
pub proof fn lemma_edges_with_status_members(rows: Seq<Pair>, key: Seq<u8>)
    ensures
        edges_with_status(rows).contains(key) <==> exists|i: int|
            0 <= i < rows.len() && row_status_edge(#[trigger] rows[i]) == Some(key),
    decreases rows.len(),
{
    if rows.len() > 0 {
        let less = rows.drop_last();
        lemma_edges_with_status_members(less, key);
        if exists|i: int| 0 <= i < less.len() && row_status_edge(#[trigger] less[i]) == Some(key) {
            let i = choose|i: int|
                0 <= i < less.len() && row_status_edge(#[trigger] less[i]) == Some(key);
            assert(rows[i] == less[i]);
        }
        if exists|i: int| 0 <= i < rows.len() && row_status_edge(#[trigger] rows[i]) == Some(key) {
            let i = choose|i: int|
                0 <= i < rows.len() && row_status_edge(#[trigger] rows[i]) == Some(key);
            if i < less.len() {
                assert(less[i] == rows[i]);
            }
        }
    }
}

/// The nodes with a status, on property rows whose keys are made of
/// strings: a node that is a string is among them exactly where the rows
/// hold a status for it.
pub proof fn lemma_nodes_with_status_mean(data: Map<Seq<u8>, Seq<u8>>, id: Seq<u8>)
    requires
        has_scan(data, Seq::<u8>::empty()),
        node_data_keyed(data),
        is_text(id),
    ensures
        nodes_with_status(all_rows(data)).contains(id) <==> data.contains_key(
            join2(id, utf8(STATUS_KEY@)),
        ),
{
    let rows = all_rows(data);
    let status = utf8(STATUS_KEY@);
    vstd::utf8::encode_utf8_valid_utf8(STATUS_KEY@);
    lemma_nodes_with_status_members(rows, id);
    assert forall|i: int| 0 <= i < rows.len() implies (row_status_owner(#[trigger] rows[i])
        == Some(id)) == (rows[i].0 == join2(id, status)) by {
        let row = rows[i].0;
        assert(data.contains_key(row));
        let (a, b) = choose|a: Seq<u8>, b: Seq<u8>| is_text(b) && row == #[trigger] join2(a, b);
        lemma_cut2_join2(a, b);
        lemma_decode_escape(b);
        lemma_unescape_escape(a);
        if row == join2(id, status) {
            lemma_join2_injective(a, b, id, status);
        }
    }
    if data.contains_key(join2(id, status)) {
        lemma_empty_prefix(join2(id, status));
        assert(has_key(rows, join2(id, status)));
        let i = choose|i: int| 0 <= i < rows.len() && #[trigger] rows[i].0 == join2(id, status);
        assert(row_status_owner(rows[i]) == Some(id));
    }
    if nodes_with_status(rows).contains(id) {
        let i = choose|i: int|
            0 <= i < rows.len() && row_status_owner(#[trigger] rows[i]) == Some(id);
        assert(data.contains_key(rows[i].0));
    }
}

/// The edges with a status, on property rows whose keys are made of
/// strings: an edge between two strings is among them exactly where the
/// rows hold a status for it.
pub proof fn lemma_edges_with_status_mean(data: Map<Seq<u8>, Seq<u8>>, from: Seq<u8>, to: Seq<u8>)
    requires
        has_scan(data, Seq::<u8>::empty()),
        edge_data_keyed(data),
    ensures
        edges_with_status(all_rows(data)).contains(join2(from, to)) <==> is_text(from) && is_text(
            to,
        ) && data.contains_key(join3(from, to, utf8(STATUS_KEY@))),
{
    let rows = all_rows(data);
    let status = utf8(STATUS_KEY@);
    vstd::utf8::encode_utf8_valid_utf8(STATUS_KEY@);
    lemma_edges_with_status_members(rows, join2(from, to));
    assert forall|i: int| 0 <= i < rows.len() implies (row_status_edge(#[trigger] rows[i]) == Some(
        join2(from, to),
    )) == (is_text(from) && is_text(to) && rows[i].0 == join3(from, to, status)) by {
        let row = rows[i].0;
        assert(data.contains_key(row));
        let (a, b, c) = choose|a: Seq<u8>, b: Seq<u8>, c: Seq<u8>|
            is_text(a) && is_text(b) && is_text(c) && row == #[trigger] join3(a, b, c);
        lemma_cut3_join3(a, b, c);
        lemma_decode_escape(a);
        lemma_decode_escape(b);
        lemma_decode_escape(c);
        if join2(a, b) == join2(from, to) {
            lemma_join2_injective(a, b, from, to);
        }
        if row == join3(from, to, status) {
            lemma_join3_injective(a, b, c, from, to, status);
        }
    }
    if is_text(from) && is_text(to) && data.contains_key(join3(from, to, status)) {
        lemma_empty_prefix(join3(from, to, status));
        assert(has_key(rows, join3(from, to, status)));
        let i = choose|i: int|
            0 <= i < rows.len() && #[trigger] rows[i].0 == join3(from, to, status);
        assert(row_status_edge(rows[i]) == Some(join2(from, to)));
    }
    if edges_with_status(rows).contains(join2(from, to)) {
        let i = choose|i: int|
            0 <= i < rows.len() && row_status_edge(#[trigger] rows[i]) == Some(join2(from, to));
        assert(data.contains_key(rows[i].0));
    }
}

/// The node that a row of the node table names as missing a status.
pub open spec fn missing_node(row: Pair, with_status: Set<Seq<u8>>) -> Option<Seq<u8>> {
    match decode(row.0) {
        Some(id) => if with_status.contains(id) {
            None
        } else {
            Some(id)
        },
        None => None,
    }
}

/// The edge that a row of the edge table names as missing a status.
pub open spec fn missing_edge(row: Pair, with_status: Set<Seq<u8>>) -> Option<
    (Seq<u8>, Seq<u8>),
> {
    match row_ends(row) {
        Some((from, to)) => if with_status.contains(join2(from, to)) {
            None
        } else {
            Some((from, to))
        },
        None => None,
    }
}

/// The nodes without a status are picked of the rows of the node table.
pub proof fn lemma_nodes_missing_are_picked(rows: Seq<Pair>, with_status: Set<Seq<u8>>)
    ensures
        nodes_missing(rows, with_status) == picked(
            rows,
            |row: Pair| missing_node(row, with_status),
        ),
    decreases rows.len(),
{
    if rows.len() > 0 {
        lemma_nodes_missing_are_picked(rows.drop_last(), with_status);
    }
}

/// The edges without a status are picked of the rows of the edge table.
pub proof fn lemma_edges_missing_are_picked(rows: Seq<Pair>, with_status: Set<Seq<u8>>)
    ensures
        edges_missing(rows, with_status) == picked(
            rows,
            |row: Pair| missing_edge(row, with_status),
        ),
    decreases rows.len(),
{
    if rows.len() > 0 {
        lemma_edges_missing_are_picked(rows.drop_last(), with_status);
    }
}

/// What the backfill writes for nodes: a row of the properties is there
/// afterwards exactly where it was there before or is the status of a node
/// of the list; the rows that were there keep their value unless a node of
/// the list had a status; and each node of the list has the status
/// `active`.
pub proof fn lemma_node_backfill_rows(rows: NodeRows, ids: Seq<Seq<u8>>, key: Seq<u8>)
    ensures
        node_backfill_all(rows, ids).data.contains_key(key) <==> rows.data.contains_key(key)
            || exists|i: int|
            0 <= i < ids.len() && key == join2(#[trigger] ids[i], utf8(STATUS_KEY@)),
        (forall|i: int| 0 <= i < ids.len() ==> key != join2(#[trigger] ids[i], utf8(STATUS_KEY@)))
            && rows.data.contains_key(key) ==> node_backfill_all(rows, ids).data[key]
            == rows.data[key],
        (exists|i: int| 0 <= i < ids.len() && key == join2(#[trigger] ids[i], utf8(STATUS_KEY@)))
            ==> node_backfill_all(rows, ids).data[key] == utf8(STATUS_ACTIVE@),
    decreases ids.len(),
{
    let status = utf8(STATUS_KEY@);
    if ids.len() > 0 {
        let less = ids.drop_last();
        let last = ids.len() - 1;
        lemma_node_backfill_rows(rows, less, key);
        if exists|i: int| 0 <= i < less.len() && key == join2(#[trigger] less[i], status) {
            let i = choose|i: int| 0 <= i < less.len() && key == join2(#[trigger] less[i], status);
            assert(ids[i] == less[i]);
        }
        if exists|i: int| 0 <= i < ids.len() && key == join2(#[trigger] ids[i], status) {
            let i = choose|i: int| 0 <= i < ids.len() && key == join2(#[trigger] ids[i], status);
            if i < last {
                assert(less[i] == ids[i]);
            }
        }
        if forall|i: int| 0 <= i < ids.len() ==> key != join2(#[trigger] ids[i], status) {
            assert forall|i: int| 0 <= i < less.len() implies key != join2(
                #[trigger] less[i],
                status,
            ) by {
                assert(less[i] == ids[i]);
            }
            assert(key != join2(ids[last], status));
        }
    }
}

/// What the backfill writes for edges.
pub proof fn lemma_edge_backfill_rows(rows: EdgeRows, edges: Seq<(Seq<u8>, Seq<u8>)>, key: Seq<u8>)
    ensures
        edge_backfill_all(rows, edges).data.contains_key(key) <==> rows.data.contains_key(key)
            || exists|i: int|
            0 <= i < edges.len() && key == join3(
                (#[trigger] edges[i]).0,
                edges[i].1,
                utf8(STATUS_KEY@),
            ),
        (forall|i: int|
            0 <= i < edges.len() ==> key != join3(
                (#[trigger] edges[i]).0,
                edges[i].1,
                utf8(STATUS_KEY@),
            )) && rows.data.contains_key(key) ==> edge_backfill_all(rows, edges).data[key]
            == rows.data[key],
        (exists|i: int|
            0 <= i < edges.len() && key == join3(
                (#[trigger] edges[i]).0,
                edges[i].1,
                utf8(STATUS_KEY@),
            )) ==> edge_backfill_all(rows, edges).data[key] == utf8(STATUS_ACTIVE@),
    decreases edges.len(),
{
    let status = utf8(STATUS_KEY@);
    if edges.len() > 0 {
        let less = edges.drop_last();
        let last = edges.len() - 1;
        lemma_edge_backfill_rows(rows, less, key);
        if exists|i: int|
            0 <= i < less.len() && key == join3((#[trigger] less[i]).0, less[i].1, status) {
            let i = choose|i: int|
                0 <= i < less.len() && key == join3((#[trigger] less[i]).0, less[i].1, status);
            assert(edges[i] == less[i]);
        }
        if exists|i: int|
            0 <= i < edges.len() && key == join3((#[trigger] edges[i]).0, edges[i].1, status) {
            let i = choose|i: int|
                0 <= i < edges.len() && key == join3((#[trigger] edges[i]).0, edges[i].1, status);
            if i < last {
                assert(less[i] == edges[i]);
            }
        }
        if forall|i: int|
            0 <= i < edges.len() ==> key != join3((#[trigger] edges[i]).0, edges[i].1, status) {
            assert forall|i: int| 0 <= i < less.len() implies key != join3(
                (#[trigger] less[i]).0,
                less[i].1,
                status,
            ) by {
                assert(less[i] == edges[i]);
            }
            assert(key != join3(edges[last].0, edges[last].1, status));
        }
    }
}

/// The nodes that a snapshot shows without a status.
pub open spec fn missing_nodes(nodes: Map<Seq<u8>, Seq<u8>>, data: Map<Seq<u8>, Seq<u8>>) -> Seq<
    Seq<u8>,
> {
    nodes_missing(all_rows(nodes), nodes_with_status(all_rows(data)))
}

/// The edges that a snapshot shows without a status.
pub open spec fn missing_edges(edges: Map<Seq<u8>, Seq<u8>>, data: Map<Seq<u8>, Seq<u8>>) -> Seq<
    (Seq<u8>, Seq<u8>),
> {
    edges_missing(all_rows(edges), edges_with_status(all_rows(data)))
}

/// What the backfill means for nodes, where the property rows are those
/// that the snapshot shows and their keys are made of strings: afterwards
/// every row of the node table whose key decodes has a status row; every
/// property row that was there is there as it was; and the status that is
/// new is `active`.
pub proof fn lemma_node_backfill_means(nodes: Map<Seq<u8>, Seq<u8>>, rows: NodeRows)
    requires
        has_scan(nodes, Seq::<u8>::empty()),
        has_scan(rows.data, Seq::<u8>::empty()),
        node_data_keyed(rows.data),
    ensures
        ({
            let after = node_backfill_all(rows, missing_nodes(nodes, rows.data));
            &&& forall|row: Seq<u8>, id: Seq<u8>|
                nodes.contains_key(row) && #[trigger] decode(row) == Some(id)
                    ==> #[trigger] after.data.contains_key(join2(id, utf8(STATUS_KEY@)))
            &&& forall|key: Seq<u8>| #[trigger]
                rows.data.contains_key(key) ==> after.data.contains_key(key) && after.data[key]
                    == rows.data[key]
            &&& forall|key: Seq<u8>| #[trigger]
                after.data.contains_key(key) && !rows.data.contains_key(key) ==> after.data[key]
                    == utf8(STATUS_ACTIVE@)
            &&& node_data_keyed(after.data)
        }),
{
    let status = utf8(STATUS_KEY@);
    let held = nodes_with_status(all_rows(rows.data));
    let missing = missing_nodes(nodes, rows.data);
    let after = node_backfill_all(rows, missing);
    let table = all_rows(nodes);
    let pick = |row: Pair| missing_node(row, held);
    vstd::utf8::encode_utf8_valid_utf8(STATUS_KEY@);
    lemma_nodes_missing_are_picked(table, held);
    assert forall|i: int| 0 <= i < missing.len() implies is_text(#[trigger] missing[i])
        && !rows.data.contains_key(join2(missing[i], status)) by {
        let id = missing[i];
        assert(missing.contains(id));
        lemma_picked_members(table, pick, id);
        let k = choose|k: int| 0 <= k < table.len() && #[trigger] pick(table[k]) == Some(id);
        assert(decode(table[k].0) == Some(id));
        lemma_nodes_with_status_mean(rows.data, id);
    }
    assert forall|row: Seq<u8>, id: Seq<u8>|
        nodes.contains_key(row) && #[trigger] decode(row) == Some(id)
        implies #[trigger] after.data.contains_key(join2(id, status)) by {
        lemma_node_backfill_rows(rows, missing, join2(id, status));
        lemma_nodes_with_status_mean(rows.data, id);
        if !held.contains(id) {
            lemma_empty_prefix(row);
            assert(has_key(table, row));
            let k = choose|k: int| 0 <= k < table.len() && #[trigger] table[k].0 == row;
            assert(pick(table[k]) == Some(id));
            lemma_picked_members(table, pick, id);
            assert(missing.contains(id));
            let m = choose|m: int| 0 <= m < missing.len() && missing[m] == id;
            assert(join2(id, status) == join2(missing[m], status));
        }
    }
    assert forall|key: Seq<u8>| #[trigger] rows.data.contains_key(key) implies after.data.contains_key(
        key,
    ) && after.data[key] == rows.data[key] by {
        lemma_node_backfill_rows(rows, missing, key);
    }
    assert forall|key: Seq<u8>| #[trigger]
        after.data.contains_key(key) && !rows.data.contains_key(key) implies after.data[key]
        == utf8(STATUS_ACTIVE@) by {
        lemma_node_backfill_rows(rows, missing, key);
    }
    assert forall|key: Seq<u8>| #[trigger] after.data.contains_key(key) implies exists|
        id: Seq<u8>,
        name: Seq<u8>,
    | is_text(name) && key == #[trigger] join2(id, name) by {
        lemma_node_backfill_rows(rows, missing, key);
        if !rows.data.contains_key(key) {
            let i = choose|i: int|
                0 <= i < missing.len() && key == join2(#[trigger] missing[i], status);
            assert(is_text(status) && key == join2(missing[i], status));
        }
    }
}

/// A second backfill finds no node missing: once the backfill has run,
/// every node of the node table whose key decodes is among the nodes with a
/// status.
pub proof fn lemma_node_backfill_is_done(nodes: Map<Seq<u8>, Seq<u8>>, rows: NodeRows)
    requires
        has_scan(nodes, Seq::<u8>::empty()),
        has_scan(rows.data, Seq::<u8>::empty()),
        node_data_keyed(rows.data),
        has_scan(
            node_backfill_all(rows, missing_nodes(nodes, rows.data)).data,
            Seq::<u8>::empty(),
        ),
    ensures
        missing_nodes(nodes, node_backfill_all(rows, missing_nodes(nodes, rows.data)).data)
            == Seq::<Seq<u8>>::empty(),
{
    let after = node_backfill_all(rows, missing_nodes(nodes, rows.data));
    let held = nodes_with_status(all_rows(after.data));
    let table = all_rows(nodes);
    let again = missing_nodes(nodes, after.data);
    let pick = |row: Pair| missing_node(row, held);
    lemma_node_backfill_means(nodes, rows);
    lemma_nodes_missing_are_picked(table, held);
    if again.len() > 0 {
        let id = again[0];
        assert(again.contains(id));
        lemma_picked_members(table, pick, id);
        let k = choose|k: int| 0 <= k < table.len() && #[trigger] pick(table[k]) == Some(id);
        assert(nodes.contains_key(table[k].0));
        assert(decode(table[k].0) == Some(id));
        assert(after.data.contains_key(join2(id, utf8(STATUS_KEY@))));
        lemma_nodes_with_status_mean(after.data, id);
    }
}

/// What the backfill means for edges, where the property rows are those
/// that the snapshot shows and their keys are made of strings: afterwards
/// every row of the edge table whose key decodes has a status row; every
/// property row that was there is there as it was; and the status that is
/// new is `active`.
pub proof fn lemma_edge_backfill_means(edges: Map<Seq<u8>, Seq<u8>>, rows: EdgeRows)
    requires
        has_scan(edges, Seq::<u8>::empty()),
        has_scan(rows.data, Seq::<u8>::empty()),
        edge_data_keyed(rows.data),
    ensures
        ({
            let after = edge_backfill_all(rows, missing_edges(edges, rows.data));
            &&& forall|row: Seq<u8>, from: Seq<u8>, to: Seq<u8>|
                edges.contains_key(row) && #[trigger] row_ends((row, edges[row])) == Some(
                    (from, to),
                ) ==> #[trigger] after.data.contains_key(join3(from, to, utf8(STATUS_KEY@)))
            &&& forall|key: Seq<u8>| #[trigger]
                rows.data.contains_key(key) ==> after.data.contains_key(key) && after.data[key]
                    == rows.data[key]
            &&& forall|key: Seq<u8>| #[trigger]
                after.data.contains_key(key) && !rows.data.contains_key(key) ==> after.data[key]
                    == utf8(STATUS_ACTIVE@)
            &&& edge_data_keyed(after.data)
        }),
{
    let status = utf8(STATUS_KEY@);
    let held = edges_with_status(all_rows(rows.data));
    let missing = missing_edges(edges, rows.data);
    let after = edge_backfill_all(rows, missing);
    let table = all_rows(edges);
    let pick = |row: Pair| missing_edge(row, held);
    vstd::utf8::encode_utf8_valid_utf8(STATUS_KEY@);
    lemma_edges_missing_are_picked(table, held);
    assert forall|i: int| 0 <= i < missing.len() implies is_text((#[trigger] missing[i]).0)
        && is_text(missing[i].1) && !rows.data.contains_key(
        join3(missing[i].0, missing[i].1, status),
    ) by {
        let edge = missing[i];
        assert(missing.contains(edge));
        lemma_picked_members(table, pick, edge);
        let k = choose|k: int| 0 <= k < table.len() && #[trigger] pick(table[k]) == Some(edge);
        assert(row_ends(table[k]) == Some(edge));
        lemma_edges_with_status_mean(rows.data, edge.0, edge.1);
    }
    assert forall|row: Seq<u8>, from: Seq<u8>, to: Seq<u8>|
        edges.contains_key(row) && #[trigger] row_ends((row, edges[row])) == Some((from, to))
        implies #[trigger] after.data.contains_key(join3(from, to, status)) by {
        lemma_edge_backfill_rows(rows, missing, join3(from, to, status));
        lemma_edges_with_status_mean(rows.data, from, to);
        if !held.contains(join2(from, to)) {
            lemma_empty_prefix(row);
            assert(has_key(table, row));
            let k = choose|k: int| 0 <= k < table.len() && #[trigger] table[k].0 == row;
            assert(table[k] == (row, edges[row]));
            assert(pick(table[k]) == Some((from, to)));
            lemma_picked_members(table, pick, (from, to));
            assert(missing.contains((from, to)));
            let m = choose|m: int| 0 <= m < missing.len() && missing[m] == (from, to);
            assert(join3(from, to, status) == join3(missing[m].0, missing[m].1, status));
        }
    }
    assert forall|key: Seq<u8>| #[trigger] rows.data.contains_key(key) implies after.data.contains_key(
        key,
    ) && after.data[key] == rows.data[key] by {
        lemma_edge_backfill_rows(rows, missing, key);
    }
    assert forall|key: Seq<u8>| #[trigger]
        after.data.contains_key(key) && !rows.data.contains_key(key) implies after.data[key]
        == utf8(STATUS_ACTIVE@) by {
        lemma_edge_backfill_rows(rows, missing, key);
    }
    assert forall|key: Seq<u8>| #[trigger] after.data.contains_key(key) implies exists|
        from: Seq<u8>,
        to: Seq<u8>,
        name: Seq<u8>,
    |
        is_text(from) && is_text(to) && is_text(name) && key == #[trigger] join3(from, to, name) by {
        lemma_edge_backfill_rows(rows, missing, key);
        if !rows.data.contains_key(key) {
            let i = choose|i: int|
                0 <= i < missing.len() && key == join3(
                    (#[trigger] missing[i]).0,
                    missing[i].1,
                    status,
                );
            assert(is_text(missing[i].0) && is_text(missing[i].1) && is_text(status) && key
                == join3(missing[i].0, missing[i].1, status));
        }
    }
}

/// A second backfill finds no edge missing.
pub proof fn lemma_edge_backfill_is_done(edges: Map<Seq<u8>, Seq<u8>>, rows: EdgeRows)
    requires
        has_scan(edges, Seq::<u8>::empty()),
        has_scan(rows.data, Seq::<u8>::empty()),
        edge_data_keyed(rows.data),
        has_scan(
            edge_backfill_all(rows, missing_edges(edges, rows.data)).data,
            Seq::<u8>::empty(),
        ),
    ensures
        missing_edges(edges, edge_backfill_all(rows, missing_edges(edges, rows.data)).data)
            == Seq::<(Seq<u8>, Seq<u8>)>::empty(),
{
    let after = edge_backfill_all(rows, missing_edges(edges, rows.data));
    let held = edges_with_status(all_rows(after.data));
    let table = all_rows(edges);
    let again = missing_edges(edges, after.data);
    let pick = |row: Pair| missing_edge(row, held);
    lemma_edge_backfill_means(edges, rows);
    lemma_edges_missing_are_picked(table, held);
    if again.len() > 0 {
        let edge = again[0];
        assert(again.contains(edge));
        lemma_picked_members(table, pick, edge);
        let k = choose|k: int| 0 <= k < table.len() && #[trigger] pick(table[k]) == Some(edge);
        assert(edges.contains_key(table[k].0));
        assert(table[k] == (table[k].0, edges[table[k].0]));
        assert(row_ends((table[k].0, edges[table[k].0])) == Some((edge.0, edge.1)));
        assert(after.data.contains_key(join3(edge.0, edge.1, utf8(STATUS_KEY@))));
        lemma_edges_with_status_mean(after.data, edge.0, edge.1);
    }
}

/// Every key of the property rows of the nodes is made of two strings.
pub open spec fn node_data_texts(data: Map<Seq<u8>, Seq<u8>>) -> bool {
    forall|row: Seq<u8>| #[trigger]
        data.contains_key(row) ==> exists|id: Seq<u8>, key: Seq<u8>|
            is_text(id) && is_text(key) && row == #[trigger] join2(id, key)
}

/// A table with entries holds a key exactly where it held it or the key is
/// one of the entries.
pub proof fn lemma_with_entries_members(rows: Map<Seq<u8>, Seq<u8>>, entries: Seq<Seq<u8>>, key: Seq<u8>)
    ensures
        with_entries(rows, entries).contains_key(key) <==> rows.contains_key(key)
            || entries.contains(key),
    decreases entries.len(),
{
    if entries.len() > 0 {
        let less = entries.drop_last();
        lemma_with_entries_members(rows, less, key);
        if less.contains(key) {
            let i = choose|i: int| 0 <= i < less.len() && less[i] == key;
            assert(entries[i] == key);
        }
        if entries.contains(key) {
            let i = choose|i: int| 0 <= i < entries.len() && entries[i] == key;
            if i < less.len() {
                assert(less[i] == key);
            }
        }
        assert(entries[entries.len() - 1] == entries.last());
    }
}

/// The index entries of the nodes are picked of the property rows.
pub proof fn lemma_node_entries_are_picked(rows: Seq<Pair>)
    ensures
        node_entries_of_rows(rows) == picked(rows, |row: Pair| node_entry_of_row(row)),
    decreases rows.len(),
{
    if rows.len() > 0 {
        lemma_node_entries_are_picked(rows.drop_last());
    }
}

/// The index entries of the edges are picked of the property rows.
pub proof fn lemma_edge_entries_are_picked(rows: Seq<Pair>)
    ensures
        edge_entries_of_rows(rows) == picked(rows, |row: Pair| edge_entry_of_row(row)),
    decreases rows.len(),
{
    if rows.len() > 0 {
        lemma_edge_entries_are_picked(rows.drop_last());
    }
}

/// What the rebuilding of an index over the node properties means: an
/// index that held nothing holds afterwards an entry for every property
/// row and no other, so that it is coherent with the rows; provided that
/// the keys of the rows are made of strings.
pub proof fn lemma_rebuilt_node_index_is_coherent(
    data: Map<Seq<u8>, Seq<u8>>,
    index: Map<Seq<u8>, Seq<u8>>,
)
    requires
        has_scan(data, Seq::<u8>::empty()),
        node_data_texts(data),
        forall|key: Seq<u8>| !index.contains_key(key),
    ensures
        node_index_coherent(data, with_entries(index, node_entries_of_rows(all_rows(data)))),
{
    let rows = all_rows(data);
    let entries = node_entries_of_rows(rows);
    let built = with_entries(index, entries);
    let pick = |row: Pair| node_entry_of_row(row);
    lemma_node_entries_are_picked(rows);
    assert forall|i: int| 0 <= i < rows.len() implies exists|a: Seq<u8>, b: Seq<u8>|
        (#[trigger] rows[i]).0 == join2(a, b) && pick(rows[i]) == Some(join3(b, rows[i].1, a)) by {
        let row = rows[i].0;
        assert(data.contains_key(row));
        let (a, b) = choose|a: Seq<u8>, b: Seq<u8>|
            is_text(a) && is_text(b) && row == #[trigger] join2(a, b);
        lemma_cut2_join2(a, b);
        lemma_decode_escape(a);
        lemma_decode_escape(b);
    }
    assert forall|id: Seq<u8>, key: Seq<u8>| #[trigger]
        data.contains_key(join2(id, key)) implies built.contains_key(
        join3(key, data[join2(id, key)], id),
    ) by {
        let row = join2(id, key);
        lemma_empty_prefix(row);
        assert(has_key(rows, row));
        let i = choose|i: int| 0 <= i < rows.len() && #[trigger] rows[i].0 == row;
        let (a, b) = choose|a: Seq<u8>, b: Seq<u8>|
            rows[i].0 == join2(a, b) && pick(rows[i]) == Some(join3(b, rows[i].1, a));
        lemma_join2_injective(a, b, id, key);
        lemma_picked_members(rows, pick, join3(key, rows[i].1, id));
        lemma_with_entries_members(index, entries, join3(key, data[row], id));
    }
    assert forall|id: Seq<u8>, key: Seq<u8>, value: Seq<u8>| #[trigger]
        built.contains_key(join3(key, value, id)) implies data.contains_key(join2(id, key))
        && data[join2(id, key)] == value by {
        let entry = join3(key, value, id);
        lemma_with_entries_members(index, entries, entry);
        lemma_picked_members(rows, pick, entry);
        let i = choose|i: int| 0 <= i < rows.len() && #[trigger] pick(rows[i]) == Some(entry);
        let (a, b) = choose|a: Seq<u8>, b: Seq<u8>|
            rows[i].0 == join2(a, b) && pick(rows[i]) == Some(join3(b, rows[i].1, a));
        crate::keys::lemma_join3_injective(b, rows[i].1, a, key, value, id);
        assert(data.contains_key(rows[i].0));
    }
}

/// What the rebuilding of the index over the edge properties means: an
/// index that held nothing is coherent with the rows afterwards, provided
/// that the keys of the rows are made of strings.
pub proof fn lemma_rebuilt_edge_index_is_coherent(
    data: Map<Seq<u8>, Seq<u8>>,
    index: Map<Seq<u8>, Seq<u8>>,
)
    requires
        has_scan(data, Seq::<u8>::empty()),
        edge_data_keyed(data),
        forall|key: Seq<u8>| !index.contains_key(key),
    ensures
        edge_index_coherent(data, with_entries(index, edge_entries_of_rows(all_rows(data)))),
{
    let rows = all_rows(data);
    let entries = edge_entries_of_rows(rows);
    let built = with_entries(index, entries);
    let pick = |row: Pair| edge_entry_of_row(row);
    lemma_edge_entries_are_picked(rows);
    assert forall|i: int| 0 <= i < rows.len() implies exists|a: Seq<u8>, b: Seq<u8>, c: Seq<u8>|
        (#[trigger] rows[i]).0 == join3(a, b, c) && pick(rows[i]) == Some(
            join4(c, rows[i].1, a, b),
        ) by {
        let row = rows[i].0;
        assert(data.contains_key(row));
        let (a, b, c) = choose|a: Seq<u8>, b: Seq<u8>, c: Seq<u8>|
            is_text(a) && is_text(b) && is_text(c) && row == #[trigger] join3(a, b, c);
        lemma_cut3_join3(a, b, c);
        lemma_decode_escape(a);
        lemma_decode_escape(b);
        lemma_decode_escape(c);
    }
    assert forall|from: Seq<u8>, to: Seq<u8>, key: Seq<u8>| #[trigger]
        data.contains_key(join3(from, to, key)) implies built.contains_key(
        join4(key, data[join3(from, to, key)], from, to),
    ) by {
        let row = join3(from, to, key);
        lemma_empty_prefix(row);
        assert(has_key(rows, row));
        let i = choose|i: int| 0 <= i < rows.len() && #[trigger] rows[i].0 == row;
        let (a, b, c) = choose|a: Seq<u8>, b: Seq<u8>, c: Seq<u8>|
            rows[i].0 == join3(a, b, c) && pick(rows[i]) == Some(join4(c, rows[i].1, a, b));
        lemma_join3_injective(a, b, c, from, to, key);
        lemma_picked_members(rows, pick, join4(key, rows[i].1, from, to));
        lemma_with_entries_members(index, entries, join4(key, data[row], from, to));
    }
    assert forall|from: Seq<u8>, to: Seq<u8>, key: Seq<u8>, value: Seq<u8>| #[trigger]
        built.contains_key(join4(key, value, from, to)) implies data.contains_key(
        join3(from, to, key),
    ) && data[join3(from, to, key)] == value by {
        let entry = join4(key, value, from, to);
        lemma_with_entries_members(index, entries, entry);
        lemma_picked_members(rows, pick, entry);
        let i = choose|i: int| 0 <= i < rows.len() && #[trigger] pick(rows[i]) == Some(entry);
        let (a, b, c) = choose|a: Seq<u8>, b: Seq<u8>, c: Seq<u8>|
            rows[i].0 == join3(a, b, c) && pick(rows[i]) == Some(join4(c, rows[i].1, a, b));
        crate::keys::lemma_join4_injective(c, rows[i].1, a, b, key, value, from, to);
        assert(data.contains_key(rows[i].0));
    }
}

} // verus!
