use vstd::prelude::*;
use crate::text::utf8;
use crate::keys::{join2, join3, join4, prefix1, prefix2, lemma_cut2_join2, lemma_join2_injective, lemma_join3_injective, lemma_join4_injective};
use crate::assoc::has_key;
use crate::props::Pair;
use crate::schema::{SchemaCache, STATUS_KEY, STATUS_ACTIVE, STATUS_DELETED, TYPE_KEY};
use crate::store::{has_scan, prefix_rows};
use crate::index::{EdgeRows, edge_upsert, edge_rows_coherent};
use crate::reads::edges_of_rows;
use crate::views::{all_rows, row_ends, edge_listing, ListedEdge};
use crate::recovery::{edges_at, edges_marked_deleted, lemma_marked_deleted_coherent};
use crate::canon::{is_text, edge_index_keyed, lemma_decode_escape, lemma_edge_index_scan_names};
use crate::means::{edges_keyed, edge_data_keyed, stored_edge_properties, active_edge_keys, picked, lemma_picked_members, lemma_empty_prefix, lemma_edge_listing_means};
use crate::service::lemma_words_differ;

verus! {

/// The edge that a row of the edge table holds, where it starts or ends at
/// the node `id`.
pub open spec fn edge_at(row: Pair, id: Seq<u8>) -> Option<(Seq<u8>, Seq<u8>)> {
    match row_ends(row) {
        Some((from, to)) => if from == id || to == id {
            Some((from, to))
        } else {
            None
        },
        None => None,
    }
}

/// The edges at a node are picked of the rows of the edge table.
pub proof fn lemma_edges_at_are_picked(rows: Seq<Pair>, id: Seq<u8>)
    ensures
        edges_at(rows, id) == picked(rows, |row: Pair| edge_at(row, id)),
    decreases rows.len(),
{
    if rows.len() > 0 {
        lemma_edges_at_are_picked(rows.drop_last(), id);
    }
}

/// The edges at a node, on an edge table whose keys are made of strings:
/// an edge is among them exactly where it has a row and starts or ends at
/// the node.
pub proof fn lemma_edges_at_mean(edges: Map<Seq<u8>, Seq<u8>>, id: Seq<u8>, from: Seq<u8>, to: Seq<u8>)
    requires
        has_scan(edges, Seq::<u8>::empty()),
        edges_keyed(edges),
    ensures
        edges_at(all_rows(edges), id).contains((from, to)) <==> is_text(from) && is_text(to)
            && edges.contains_key(join2(from, to)) && (from == id || to == id),
{
    let rows = all_rows(edges);
    let pick = |row: Pair| edge_at(row, id);
    lemma_edges_at_are_picked(rows, id);
    lemma_picked_members(rows, pick, (from, to));
    assert forall|i: int| 0 <= i < rows.len() implies (#[trigger] pick(rows[i]) == Some(
        (from, to),
    )) == (is_text(from) && is_text(to) && rows[i].0 == join2(from, to) && (from == id || to
        == id)) by {
        let row = rows[i].0;
        assert(edges.contains_key(row));
        let (a, b) = choose|a: Seq<u8>, b: Seq<u8>|
            is_text(a) && is_text(b) && row == #[trigger] join2(a, b);
        lemma_cut2_join2(a, b);
        lemma_decode_escape(a);
        lemma_decode_escape(b);
        if row == join2(from, to) {
            lemma_join2_injective(a, b, from, to);
        }
    }
    if is_text(from) && is_text(to) && edges.contains_key(join2(from, to)) && (from == id || to
        == id) {
        lemma_empty_prefix(join2(from, to));
        assert(has_key(rows, join2(from, to)));
        let i = choose|i: int| 0 <= i < rows.len() && #[trigger] rows[i].0 == join2(from, to);
        assert(pick(rows[i]) == Some((from, to)));
    }
    if exists|i: int| 0 <= i < rows.len() && #[trigger] pick(rows[i]) == Some((from, to)) {
        let i = choose|i: int| 0 <= i < rows.len() && #[trigger] pick(rows[i]) == Some((from, to));
        assert(edges.contains_key(rows[i].0));
    }
}

/// What marking edges as deleted does to the rows of an edge: an edge of
/// the list has the status `deleted` afterwards; of an edge that is not of
/// the list, every property row and every index entry is as before.
pub proof fn lemma_marked_rows(
    rows: EdgeRows,
    marked: Seq<(Seq<u8>, Seq<u8>)>,
    from: Seq<u8>,
    to: Seq<u8>,
    key: Seq<u8>,
    value: Seq<u8>,
)
    ensures
        marked.contains((from, to)) ==> edges_marked_deleted(rows, marked).data.contains_key(
            join3(from, to, utf8(STATUS_KEY@)),
        ) && edges_marked_deleted(rows, marked).data[join3(from, to, utf8(STATUS_KEY@))] == utf8(
            STATUS_DELETED@,
        ),
        !marked.contains((from, to)) ==> edges_marked_deleted(rows, marked).data.contains_key(
            join3(from, to, key),
        ) == rows.data.contains_key(join3(from, to, key)),
        !marked.contains((from, to)) && rows.data.contains_key(join3(from, to, key))
            ==> edges_marked_deleted(rows, marked).data[join3(from, to, key)] == rows.data[join3(
            from,
            to,
            key,
        )],
        !marked.contains((from, to)) ==> edges_marked_deleted(rows, marked).index.contains_key(
            join4(key, value, from, to),
        ) == rows.index.contains_key(join4(key, value, from, to)),
    decreases marked.len(),
{
    let status = utf8(STATUS_KEY@);
    if marked.len() > 0 {
        let less = marked.drop_last();
        let last = marked[marked.len() - 1];
        let before = edges_marked_deleted(rows, less);
        lemma_marked_rows(rows, less, from, to, key, value);
        lemma_marked_rows(rows, less, from, to, status, value);
        if less.contains((from, to)) {
            let i = choose|i: int| 0 <= i < less.len() && less[i] == (from, to);
            assert(marked[i] == (from, to));
        }
        if marked.contains((from, to)) {
            let i = choose|i: int| 0 <= i < marked.len() && marked[i] == (from, to);
            if i < less.len() {
                assert(less[i] == (from, to));
            }
            if last != (from, to) {
                assert(less.contains((from, to)));
                if join3(last.0, last.1, status) == join3(from, to, status) {
                    lemma_join3_injective(last.0, last.1, status, from, to, status);
                }
            }
        } else {
            assert(last != (from, to));
            if join3(last.0, last.1, status) == join3(from, to, key) {
                lemma_join3_injective(last.0, last.1, status, from, to, key);
            }
            if join4(status, utf8(STATUS_DELETED@), last.0, last.1) == join4(key, value, from, to) {
                lemma_join4_injective(
                    status,
                    utf8(STATUS_DELETED@),
                    last.0,
                    last.1,
                    key,
                    value,
                    from,
                    to,
                );
            }
            if before.data.contains_key(join3(last.0, last.1, status)) {
                let stale = join4(status, before.data[join3(last.0, last.1, status)], last.0, last.1);
                if stale == join4(key, value, from, to) {
                    lemma_join4_injective(
                        status,
                        before.data[join3(last.0, last.1, status)],
                        last.0,
                        last.1,
                        key,
                        value,
                        from,
                        to,
                    );
                }
            }
        }
    }
}

/// Marking edges between strings as deleted keeps the keys of the rows and
/// of the index made of strings.
pub proof fn lemma_marked_keeps_the_keys(rows: EdgeRows, marked: Seq<(Seq<u8>, Seq<u8>)>)
    requires
        edge_data_keyed(rows.data),
        edge_index_keyed(rows.index),
        forall|i: int| 0 <= i < marked.len() ==> is_text((#[trigger] marked[i]).0) && is_text(
            marked[i].1,
        ),
    ensures
        edge_data_keyed(edges_marked_deleted(rows, marked).data),
        edge_index_keyed(edges_marked_deleted(rows, marked).index),
    decreases marked.len(),
{
    let status = utf8(STATUS_KEY@);
    vstd::utf8::encode_utf8_valid_utf8(STATUS_KEY@);
    if marked.len() > 0 {
        let less = marked.drop_last();
        let last = marked[marked.len() - 1];
        assert forall|i: int| 0 <= i < less.len() implies is_text((#[trigger] less[i]).0)
            && is_text(less[i].1) by {
            assert(less[i] == marked[i]);
        }
        lemma_marked_keeps_the_keys(rows, less);
        let before = edges_marked_deleted(rows, less);
        let after = edges_marked_deleted(rows, marked);
        assert(after == edge_upsert(before, last.0, last.1, status, utf8(STATUS_DELETED@)));
        assert forall|row: Seq<u8>| #[trigger] after.data.contains_key(row) implies exists|
            from: Seq<u8>,
            to: Seq<u8>,
            key: Seq<u8>,
        |
            is_text(from) && is_text(to) && is_text(key) && row == #[trigger] join3(
                from,
                to,
                key,
            ) by {
            if !before.data.contains_key(row) {
                assert(is_text(last.0) && is_text(last.1) && is_text(status) && row == join3(
                    last.0,
                    last.1,
                    status,
                ));
            }
        }
        assert forall|row: Seq<u8>| #[trigger] after.index.contains_key(row) implies exists|
            key: Seq<u8>,
            value: Seq<u8>,
            from: Seq<u8>,
            to: Seq<u8>,
        | is_text(from) && is_text(to) && row == #[trigger] join4(key, value, from, to) by {
            if !before.index.contains_key(row) {
                assert(is_text(last.0) && is_text(last.1) && row == join4(
                    status,
                    utf8(STATUS_DELETED@),
                    last.0,
                    last.1,
                ));
            }
        }
    }
}

/// The active edges of an index whose keys are made of strings: the key of
/// an edge between two strings is among them exactly where the index holds
/// the entry of the status `active` for the edge.
pub proof fn lemma_active_edge_keys_mean(index: Map<Seq<u8>, Seq<u8>>, from: Seq<u8>, to: Seq<u8>)
    requires
        has_scan(index, prefix2(utf8(STATUS_KEY@), utf8(STATUS_ACTIVE@))),
        edge_index_keyed(index),
        is_text(from),
        is_text(to),
    ensures
        active_edge_keys(index).contains(join2(from, to)) <==> index.contains_key(
            join4(utf8(STATUS_KEY@), utf8(STATUS_ACTIVE@), from, to),
        ),
{
    let named = edges_of_rows(
        prefix_rows(index, prefix2(utf8(STATUS_KEY@), utf8(STATUS_ACTIVE@))),
    );
    lemma_edge_index_scan_names(index, utf8(STATUS_KEY@), utf8(STATUS_ACTIVE@), from, to);
    if active_edge_keys(index).contains(join2(from, to)) {
        let i = choose|i: int|
            0 <= i < named.len() && #[trigger] join2(named[i].0, named[i].1) == join2(from, to);
        lemma_join2_injective(named[i].0, named[i].1, from, to);
        assert(named[i] == (from, to));
    }
    if named.contains((from, to)) {
        let i = choose|i: int| 0 <= i < named.len() && named[i] == (from, to);
        assert(join2(named[i].0, named[i].1) == join2(from, to));
    }
}

/// The rows can be listed that a listing of the edges reads for an edge.
pub open spec fn can_be_listed(
    index: Map<Seq<u8>, Seq<u8>>,
    edges: Map<Seq<u8>, Seq<u8>>,
    edge_data: Map<Seq<u8>, Seq<u8>>,
    kind: Option<Seq<u8>>,
    from_filter: Option<Seq<u8>>,
    edge: ListedEdge,
) -> bool {
    &&& has_scan(index, prefix2(utf8(STATUS_KEY@), utf8(STATUS_ACTIVE@)))
    &&& match kind {
        Some(kind) => has_scan(index, prefix2(utf8(TYPE_KEY@), kind)) && has_scan(
            edge_data,
            prefix2(edge.0, edge.1),
        ),
        None => match from_filter {
            Some(from) => has_scan(edges, prefix1(from)) && has_scan(edge_data, prefix1(from)),
            None => has_scan(edges, Seq::<u8>::empty()) && has_scan(edge_data, Seq::<u8>::empty()),
        },
    }
}

/// What the deletion of a node does to the listings of the edges: once
/// every edge at the node is marked as deleted, no listing shows an edge
/// that starts or ends at the node, and a listing shows every other edge
/// exactly where it showed it before, with the same properties. This holds
/// of tables whose keys are made of strings and whose index is coherent
/// with the property rows.
pub proof fn lemma_deleted_node_leaves_the_listings(
    rows: EdgeRows,
    edges: Map<Seq<u8>, Seq<u8>>,
    id: Seq<u8>,
    kind: Option<Seq<u8>>,
    from_filter: Option<Seq<u8>>,
    to_filter: Option<Seq<u8>>,
    schema: SchemaCache,
    hydrate: bool,
    edge: ListedEdge,
)
    requires
        edge_rows_coherent(rows),
        edges_keyed(edges),
        edge_data_keyed(rows.data),
        edge_index_keyed(rows.index),
        has_scan(edges, Seq::<u8>::empty()),
        can_be_listed(rows.index, edges, rows.data, kind, from_filter, edge),
        can_be_listed(
            edges_marked_deleted(rows, edges_at(all_rows(edges), id)).index,
            edges,
            edges_marked_deleted(rows, edges_at(all_rows(edges), id)).data,
            kind,
            from_filter,
            edge,
        ),
    ensures
        ({
            let after = edges_marked_deleted(rows, edges_at(all_rows(edges), id));
            let shown_before = edge_listing(
                rows.index,
                edges,
                rows.data,
                kind,
                from_filter,
                to_filter,
                schema,
                hydrate,
            );
            let shown_after = edge_listing(
                after.index,
                edges,
                after.data,
                kind,
                from_filter,
                to_filter,
                schema,
                hydrate,
            );
            &&& edge.0 == id || edge.1 == id ==> !shown_after.contains(edge)
            &&& edge.0 != id && edge.1 != id ==> (shown_after.contains(edge)
                <==> shown_before.contains(edge))
        }),
{
    let marked = edges_at(all_rows(edges), id);
    let after = edges_marked_deleted(rows, marked);
    let status = utf8(STATUS_KEY@);
    let alive = utf8(STATUS_ACTIVE@);
    let (from, to) = (edge.0, edge.1);
    assert forall|i: int| 0 <= i < marked.len() implies is_text((#[trigger] marked[i]).0)
        && is_text(marked[i].1) by {
        assert(marked.contains(marked[i]));
        lemma_edges_at_mean(edges, id, marked[i].0, marked[i].1);
    }
    lemma_marked_keeps_the_keys(rows, marked);
    lemma_marked_deleted_coherent(rows, marked);
    lemma_edge_listing_means(
        rows.index,
        edges,
        rows.data,
        kind,
        from_filter,
        to_filter,
        schema,
        hydrate,
        edge,
    );
    lemma_edge_listing_means(
        after.index,
        edges,
        after.data,
        kind,
        from_filter,
        to_filter,
        schema,
        hydrate,
        edge,
    );
    if edges.contains_key(join2(from, to)) {
        let (a, b) = choose|a: Seq<u8>, b: Seq<u8>|
            is_text(a) && is_text(b) && join2(from, to) == #[trigger] join2(a, b);
        lemma_join2_injective(from, to, a, b);
        assert(is_text(from) && is_text(to));
        lemma_edges_at_mean(edges, id, from, to);
        lemma_active_edge_keys_mean(rows.index, from, to);
        lemma_active_edge_keys_mean(after.index, from, to);
        lemma_marked_rows(rows, marked, from, to, status, alive);
        if from == id || to == id {
            assert(marked.contains((from, to)));
            lemma_words_differ();
            if after.index.contains_key(join4(status, alive, from, to)) {
                assert(after.data[join3(from, to, status)] == alive);
            }
        } else {
            assert(!marked.contains((from, to)));
            assert forall|key: Seq<u8>|
                after.data.contains_key(join3(from, to, key)) == rows.data.contains_key(
                    join3(from, to, key),
                ) && (rows.data.contains_key(join3(from, to, key)) ==> after.data[join3(
                    from,
                    to,
                    key,
                )] == rows.data[join3(from, to, key)]) by {
                lemma_marked_rows(rows, marked, from, to, key, alive);
            }
            assert(stored_edge_properties(after.data, from, to) =~= stored_edge_properties(
                rows.data,
                from,
                to,
            ));
            if let Some(wanted) = kind {
                lemma_marked_rows(rows, marked, from, to, utf8(TYPE_KEY@), wanted);
                lemma_edge_index_scan_names(rows.index, utf8(TYPE_KEY@), wanted, from, to);
                lemma_edge_index_scan_names(after.index, utf8(TYPE_KEY@), wanted, from, to);
            }
        }
    }
}

} // verus!
