use vstd::prelude::*;
use vstd::utf8::{valid_utf8};
use crate::text::{utf8, has_prefix};
use crate::codec::{KEY_SEP, escape, decode, lemma_unescape_escape};
use crate::keys::{join2, join3, join4, prefix1, prefix2, cut2, lemma_cut2_joined, lemma_cut2_join2, lemma_cut3_join3, lemma_cut4_join4, lemma_escape_injective};
use crate::assoc::has_key;
use crate::props::Pair;
use crate::graph::{GraphModel, edge_in};
use crate::schema::{STATUS_KEY, STATUS_ACTIVE};
use crate::store::{prefix_rows, has_scan};
use crate::index::node_index_coherent;
use crate::reads::{row_node_id, row_edge, row_property, ids_of_rows, edges_of_rows, properties_of_rows};
use crate::views::{set_of, all_rows, own_properties, row_own_property};
use crate::loader::{active_node_ids, active_edge_ids, joining, joins, is_load_of};
use crate::schema::SchemaCache;

verus! {

/// The bytes are those of a string.
pub open spec fn is_text(bytes: Seq<u8>) -> bool {
    valid_utf8(bytes)
}

/// Every key of an index over node properties is made of three strings.
pub open spec fn node_index_keyed(index: Map<Seq<u8>, Seq<u8>>) -> bool {
    forall|row: Seq<u8>| #[trigger]
        index.contains_key(row) ==> exists|key: Seq<u8>, value: Seq<u8>, id: Seq<u8>|
            is_text(id) && row == #[trigger] join3(key, value, id)
}

/// Every key of the index over edge properties is made of four strings.
pub open spec fn edge_index_keyed(index: Map<Seq<u8>, Seq<u8>>) -> bool {
    forall|row: Seq<u8>| #[trigger]
        index.contains_key(row) ==> exists|
            key: Seq<u8>,
            value: Seq<u8>,
            from: Seq<u8>,
            to: Seq<u8>,
        |
            is_text(from) && is_text(to) && row == #[trigger] join4(key, value, from, to)
}

/// The encoding of a string decodes to the string.
pub proof fn lemma_decode_escape(text: Seq<u8>)
    requires
        is_text(text),
    ensures
        decode(escape(text)) == Some(text),
{
    lemma_unescape_escape(text);
}

/// An index key starts with its two first components.
pub proof fn lemma_join3_has_prefix2(key: Seq<u8>, value: Seq<u8>, id: Seq<u8>)
    ensures
        has_prefix(join3(key, value, id), prefix2(key, value)),
{
    let s = join3(key, value, id);
    let p = prefix2(key, value);
    assert(s =~= p + escape(id));
    assert(s.subrange(0, p.len() as int) =~= p);
}

/// An edge index key starts with its two first components.
pub proof fn lemma_join4_has_prefix2(key: Seq<u8>, value: Seq<u8>, from: Seq<u8>, to: Seq<u8>)
    ensures
        has_prefix(join4(key, value, from, to), prefix2(key, value)),
{
    let s = join4(key, value, from, to);
    let p = prefix2(key, value);
    assert(s =~= p + join2(from, to));
    assert(s.subrange(0, p.len() as int) =~= p);
}

/// A key that starts with two encoded components and their separators is
/// cut into them and the rest.
proof fn lemma_cut_after_prefix2(s: Seq<u8>, key: Seq<u8>, value: Seq<u8>)
    requires
        has_prefix(s, prefix2(key, value)),
    ensures
        cut2(s) == Some((escape(key), escape(value) + seq![KEY_SEP] + s.skip(prefix2(key, value).len() as int))),
        cut2(escape(value) + seq![KEY_SEP] + s.skip(prefix2(key, value).len() as int)) == Some(
            (escape(value), s.skip(prefix2(key, value).len() as int)),
        ),
{
    let p = prefix2(key, value);
    let tail = s.skip(p.len() as int);
    assert(s =~= s.subrange(0, p.len() as int) + tail);
    assert(s =~= escape(key) + seq![KEY_SEP] + (escape(value) + seq![KEY_SEP] + tail));
    lemma_cut2_joined(key, escape(value) + seq![KEY_SEP] + tail);
    lemma_cut2_joined(value, tail);
}

/// An index key that starts with the prefix of a property names that
/// property.
pub proof fn lemma_prefix2_of_join3(
    key: Seq<u8>,
    value: Seq<u8>,
    a: Seq<u8>,
    b: Seq<u8>,
    c: Seq<u8>,
)
    requires
        has_prefix(join3(a, b, c), prefix2(key, value)),
    ensures
        a == key,
        b == value,
{
    let s = join3(a, b, c);
    lemma_cut_after_prefix2(s, key, value);
    lemma_cut2_joined(a, join2(b, c));
    lemma_escape_injective(a, key);
    lemma_cut2_join2(b, c);
    lemma_escape_injective(b, value);
}

/// An edge index key that starts with the prefix of a property names that
/// property.
pub proof fn lemma_prefix2_of_join4(
    key: Seq<u8>,
    value: Seq<u8>,
    a: Seq<u8>,
    b: Seq<u8>,
    c: Seq<u8>,
    d: Seq<u8>,
)
    requires
        has_prefix(join4(a, b, c, d), prefix2(key, value)),
    ensures
        a == key,
        b == value,
{
    let s = join4(a, b, c, d);
    lemma_cut_after_prefix2(s, key, value);
    lemma_cut2_joined(a, join3(b, c, d));
    lemma_escape_injective(a, key);
    lemma_cut2_joined(b, join2(c, d));
    lemma_escape_injective(b, value);
}

/// The ids that index rows name are those that some row names.
pub proof fn lemma_ids_of_rows_members(rows: Seq<Pair>, id: Seq<u8>)
    ensures
        ids_of_rows(rows).contains(id) <==> exists|i: int|
            0 <= i < rows.len() && #[trigger] row_node_id(rows[i]) == Some(id),
    decreases rows.len(),
{
    if rows.len() > 0 {
        let less = rows.drop_last();
        lemma_ids_of_rows_members(less, id);
        let before = ids_of_rows(less);
        let out = ids_of_rows(rows);
        if ids_of_rows(rows).contains(id) {
            let j = choose|j: int| 0 <= j < out.len() && out[j] == id;
            if row_node_id(rows.last()) is Some && j == out.len() - 1 {
                assert(row_node_id(rows[rows.len() - 1]) == Some(id));
            } else {
                assert(before[j] == id);
                assert(before.contains(id));
                let i = choose|i: int|
                    0 <= i < less.len() && #[trigger] row_node_id(less[i]) == Some(id);
                assert(row_node_id(rows[i]) == Some(id));
            }
        }
        if exists|i: int| 0 <= i < rows.len() && #[trigger] row_node_id(rows[i]) == Some(id) {
            let i = choose|i: int| 0 <= i < rows.len() && #[trigger] row_node_id(rows[i]) == Some(id);
            if i < less.len() {
                assert(row_node_id(less[i]) == Some(id));
                assert(before.contains(id));
                let j = choose|j: int| 0 <= j < before.len() && before[j] == id;
                assert(out[j] == id);
            } else {
                assert(out[out.len() - 1] == id);
            }
        }
    } else {
        if ids_of_rows(rows).contains(id) {
            let j = choose|j: int| 0 <= j < ids_of_rows(rows).len() && ids_of_rows(rows)[j] == id;
        }
    }
}

/// The edges that index rows name are those that some row names.
pub proof fn lemma_edges_of_rows_members(rows: Seq<Pair>, edge: (Seq<u8>, Seq<u8>))
    ensures
        edges_of_rows(rows).contains(edge) <==> exists|i: int|
            0 <= i < rows.len() && #[trigger] row_edge(rows[i]) == Some(edge),
    decreases rows.len(),
{
    if rows.len() > 0 {
        let less = rows.drop_last();
        lemma_edges_of_rows_members(less, edge);
        let before = edges_of_rows(less);
        let out = edges_of_rows(rows);
        if edges_of_rows(rows).contains(edge) {
            let j = choose|j: int| 0 <= j < out.len() && out[j] == edge;
            if row_edge(rows.last()) is Some && j == out.len() - 1 {
                assert(row_edge(rows[rows.len() - 1]) == Some(edge));
            } else {
                assert(before[j] == edge);
                assert(before.contains(edge));
                let i = choose|i: int| 0 <= i < less.len() && #[trigger] row_edge(less[i]) == Some(edge);
                assert(row_edge(rows[i]) == Some(edge));
            }
        }
        if exists|i: int| 0 <= i < rows.len() && #[trigger] row_edge(rows[i]) == Some(edge) {
            let i = choose|i: int| 0 <= i < rows.len() && #[trigger] row_edge(rows[i]) == Some(edge);
            if i < less.len() {
                assert(row_edge(less[i]) == Some(edge));
                assert(before.contains(edge));
                let j = choose|j: int| 0 <= j < before.len() && before[j] == edge;
                assert(out[j] == edge);
            } else {
                assert(out[out.len() - 1] == edge);
            }
        }
    } else {
        if edges_of_rows(rows).contains(edge) {
            let j = choose|j: int|
                0 <= j < edges_of_rows(rows).len() && edges_of_rows(rows)[j] == edge;
        }
    }
}

/// What an index scan names: a node is named under a property exactly
/// where the index holds the entry of the property for it.
pub proof fn lemma_index_scan_names(
    index: Map<Seq<u8>, Seq<u8>>,
    key: Seq<u8>,
    value: Seq<u8>,
    id: Seq<u8>,
)
    requires
        has_scan(index, prefix2(key, value)),
        node_index_keyed(index),
        is_text(id),
    ensures
        ids_of_rows(prefix_rows(index, prefix2(key, value))).contains(id) <==> index.contains_key(
            join3(key, value, id),
        ),
{
    let prefix = prefix2(key, value);
    let rows = prefix_rows(index, prefix);
    lemma_ids_of_rows_members(rows, id);
    if index.contains_key(join3(key, value, id)) {
        lemma_join3_has_prefix2(key, value, id);
        assert(has_key(rows, join3(key, value, id)));
        let i = choose|i: int| 0 <= i < rows.len() && #[trigger] rows[i].0 == join3(key, value, id);
        lemma_cut3_join3(key, value, id);
        lemma_decode_escape(id);
        assert(row_node_id(rows[i]) == Some(id));
    }
    if ids_of_rows(rows).contains(id) {
        let i = choose|i: int| 0 <= i < rows.len() && #[trigger] row_node_id(rows[i]) == Some(id);
        let row = rows[i].0;
        assert(index.contains_key(row) && has_prefix(row, prefix));
        let (a, b, c) = choose|a: Seq<u8>, b: Seq<u8>, c: Seq<u8>|
            is_text(c) && row == #[trigger] join3(a, b, c);
        lemma_prefix2_of_join3(key, value, a, b, c);
        lemma_cut3_join3(a, b, c);
        lemma_decode_escape(c);
    }
}

/// What an edge index scan names: an edge is named under a property
/// exactly where the index holds the entry of the property for it.
pub proof fn lemma_edge_index_scan_names(
    index: Map<Seq<u8>, Seq<u8>>,
    key: Seq<u8>,
    value: Seq<u8>,
    from: Seq<u8>,
    to: Seq<u8>,
)
    requires
        has_scan(index, prefix2(key, value)),
        edge_index_keyed(index),
        is_text(from),
        is_text(to),
    ensures
        edges_of_rows(prefix_rows(index, prefix2(key, value))).contains((from, to))
            <==> index.contains_key(join4(key, value, from, to)),
{
    let prefix = prefix2(key, value);
    let rows = prefix_rows(index, prefix);
    lemma_edges_of_rows_members(rows, (from, to));
    if index.contains_key(join4(key, value, from, to)) {
        lemma_join4_has_prefix2(key, value, from, to);
        assert(has_key(rows, join4(key, value, from, to)));
        let i = choose|i: int|
            0 <= i < rows.len() && #[trigger] rows[i].0 == join4(key, value, from, to);
        lemma_cut4_join4(key, value, from, to);
        lemma_decode_escape(from);
        lemma_decode_escape(to);
        assert(row_edge(rows[i]) == Some((from, to)));
    }
    if edges_of_rows(rows).contains((from, to)) {
        let i = choose|i: int|
            0 <= i < rows.len() && #[trigger] row_edge(rows[i]) == Some((from, to));
        let row = rows[i].0;
        assert(index.contains_key(row) && has_prefix(row, prefix));
        let (a, b, c, d) = choose|a: Seq<u8>, b: Seq<u8>, c: Seq<u8>, d: Seq<u8>|
            is_text(c) && is_text(d) && row == #[trigger] join4(a, b, c, d);
        lemma_prefix2_of_join4(key, value, a, b, c, d);
        lemma_cut4_join4(a, b, c, d);
        lemma_decode_escape(c);
        lemma_decode_escape(d);
    }
}

/// The edges that `joining` keeps are those of the list whose two ends are
/// among the nodes.
pub proof fn lemma_joining_members(
    edges: Seq<(Seq<u8>, Seq<u8>)>,
    nodes: Set<Seq<u8>>,
    edge: (Seq<u8>, Seq<u8>),
)
    ensures
        joining(edges, nodes).contains(edge) <==> edges.contains(edge) && joins(edge, nodes),
    decreases edges.len(),
{
    let out = joining(edges, nodes);
    if edges.len() > 0 {
        let less = edges.drop_last();
        lemma_joining_members(less, nodes, edge);
        let before = joining(less, nodes);
        if out.contains(edge) {
            let j = choose|j: int| 0 <= j < out.len() && out[j] == edge;
            if joins(edges.last(), nodes) && j == out.len() - 1 {
                assert(edges[edges.len() - 1] == edge);
            } else {
                assert(before[j] == edge);
                assert(before.contains(edge));
                let i = choose|i: int| 0 <= i < less.len() && less[i] == edge;
                assert(edges[i] == edge);
            }
        }
        if edges.contains(edge) && joins(edge, nodes) {
            let i = choose|i: int| 0 <= i < edges.len() && edges[i] == edge;
            if i < less.len() {
                assert(less[i] == edge);
                assert(less.contains(edge));
                let j = choose|j: int| 0 <= j < before.len() && before[j] == edge;
                assert(out[j] == edge);
            } else {
                assert(out[out.len() - 1] == edge);
            }
        }
    } else {
        if out.contains(edge) {
            let j = choose|j: int| 0 <= j < out.len() && out[j] == edge;
        }
        if edges.contains(edge) {
            let j = choose|j: int| 0 <= j < edges.len() && edges[j] == edge;
        }
    }
}

/// Every key of the property rows of the nodes is made of two strings.
pub open spec fn node_data_keyed(data: Map<Seq<u8>, Seq<u8>>) -> bool {
    forall|row: Seq<u8>| #[trigger]
        data.contains_key(row) ==> exists|id: Seq<u8>, key: Seq<u8>|
            is_text(key) && row == #[trigger] join2(id, key)
}

/// A property key starts with the encoded id of its node.
pub proof fn lemma_join2_has_prefix1(id: Seq<u8>, key: Seq<u8>)
    ensures
        has_prefix(join2(id, key), prefix1(id)),
{
    let s = join2(id, key);
    let p = prefix1(id);
    assert(s =~= p + escape(key));
    assert(s.subrange(0, p.len() as int) =~= p);
}

/// A property key that starts with the prefix of a node is a key of that
/// node.
pub proof fn lemma_prefix1_of_join2(id: Seq<u8>, a: Seq<u8>, b: Seq<u8>)
    requires
        has_prefix(join2(a, b), prefix1(id)),
    ensures
        a == id,
{
    let s = join2(a, b);
    let p = prefix1(id);
    let tail = s.skip(p.len() as int);
    assert(s =~= s.subrange(0, p.len() as int) + tail);
    assert(s =~= escape(id) + seq![KEY_SEP] + tail);
    lemma_cut2_joined(id, tail);
    lemma_cut2_join2(a, b);
    lemma_escape_injective(a, id);
}

/// The row gives the property `key`.
pub open spec fn row_gives(row: Pair, key: Seq<u8>) -> bool {
    row_property(row) == Some((key, row.1))
}

/// A key is among the properties of rows exactly where some row gives it.
proof fn lemma_properties_of_rows_members(rows: Seq<Pair>, key: Seq<u8>)
    ensures
        properties_of_rows(rows).contains_key(key) <==> exists|i: int|
            0 <= i < rows.len() && #[trigger] row_gives(rows[i], key),
    decreases rows.len(),
{
    if rows.len() > 0 {
        let less = rows.drop_last();
        lemma_properties_of_rows_members(less, key);
        let last = rows.len() - 1;
        if properties_of_rows(rows).contains_key(key) {
            if row_gives(rows[last], key) {
            } else {
                assert(properties_of_rows(less).contains_key(key));
                let i = choose|i: int| 0 <= i < less.len() && #[trigger] row_gives(less[i], key);
                assert(less[i] == rows[i]);
                assert(row_gives(rows[i], key));
            }
        }
        if exists|i: int| 0 <= i < rows.len() && #[trigger] row_gives(rows[i], key) {
            let i = choose|i: int| 0 <= i < rows.len() && #[trigger] row_gives(rows[i], key);
            if i < last {
                assert(less[i] == rows[i]);
                assert(row_gives(less[i], key));
            }
        }
    }
}

/// The value of a property of rows is that of the last row that gives it.
proof fn lemma_properties_of_rows_value(rows: Seq<Pair>, key: Seq<u8>, i: int)
    requires
        0 <= i < rows.len(),
        row_gives(rows[i], key),
        forall|j: int| i < j < rows.len() ==> !#[trigger] row_gives(rows[j], key),
    ensures
        properties_of_rows(rows).contains_key(key),
        properties_of_rows(rows)[key] == rows[i].1,
    decreases rows.len(),
{
    let last = rows.len() - 1;
    if i < last {
        let less = rows.drop_last();
        assert(less[i] == rows[i]);
        assert forall|j: int| i < j < less.len() implies !#[trigger] row_gives(less[j], key) by {
            assert(less[j] == rows[j]);
        }
        lemma_properties_of_rows_value(less, key, i);
        assert(!row_gives(rows[last], key));
    }
}

/// What the stored properties of a node are: the scan of its property rows
/// gives a property exactly where a row holds it under the key made of the
/// id and the key of the property, with the value of that row, provided
/// that the keys of the rows are made of strings.
pub proof fn lemma_node_properties_mean(
    data: Map<Seq<u8>, Seq<u8>>,
    id: Seq<u8>,
    key: Seq<u8>,
)
    requires
        has_scan(data, prefix1(id)),
        node_data_keyed(data),
        is_text(key),
    ensures
        properties_of_rows(prefix_rows(data, prefix1(id))).contains_key(key)
            <==> data.contains_key(join2(id, key)),
        data.contains_key(join2(id, key)) ==> properties_of_rows(
            prefix_rows(data, prefix1(id)),
        )[key] == data[join2(id, key)],
{
    let rows = prefix_rows(data, prefix1(id));
    lemma_properties_of_rows_members(rows, key);
    assert forall|i: int| 0 <= i < rows.len() implies #[trigger] row_gives(rows[i], key) == (
    rows[i].0 == join2(id, key)) by {
        let row = rows[i].0;
        assert(data.contains_key(row) && has_prefix(row, prefix1(id)));
        let (a, b) = choose|a: Seq<u8>, b: Seq<u8>| is_text(b) && row == #[trigger] join2(a, b);
        lemma_prefix1_of_join2(id, a, b);
        lemma_cut2_join2(a, b);
        lemma_decode_escape(b);
        if row == join2(id, key) {
            crate::keys::lemma_join2_injective(a, b, id, key);
        }
    }
    if data.contains_key(join2(id, key)) {
        lemma_join2_has_prefix1(id, key);
        assert(has_key(rows, join2(id, key)));
        let i = choose|i: int| 0 <= i < rows.len() && #[trigger] rows[i].0 == join2(id, key);
        assert(row_gives(rows[i], key));
        assert forall|j: int| i < j < rows.len() implies !#[trigger] row_gives(rows[j], key) by {
            if rows[j].0 == join2(id, key) {
                crate::text::lemma_lex_irreflexive(rows[i].0);
            }
        }
        lemma_properties_of_rows_value(rows, key, i);
    }
    if properties_of_rows(rows).contains_key(key) {
        let i = choose|i: int| 0 <= i < rows.len() && #[trigger] row_gives(rows[i], key);
        assert(rows[i].0 == join2(id, key));
    }
}

/// The properties that the property rows hold for the node `id`: under
/// each key that is a string, the value of the row whose key is made of the
/// id and that key.
pub open spec fn stored_properties(data: Map<Seq<u8>, Seq<u8>>, id: Seq<u8>) -> Map<
    Seq<u8>,
    Seq<u8>,
> {
    Map::new(
        |key: Seq<u8>| is_text(key) && data.contains_key(join2(id, key)),
        |key: Seq<u8>| data[join2(id, key)],
    )
}

/// What a listing reads as the properties of a node: the scan of the
/// property rows under the prefix of the node gives exactly the properties
/// that the rows hold for it, provided that the keys of the rows are made
/// of strings.
pub proof fn lemma_listed_properties_are_the_stored(data: Map<Seq<u8>, Seq<u8>>, id: Seq<u8>)
    requires
        has_scan(data, prefix1(id)),
        node_data_keyed(data),
    ensures
        properties_of_rows(prefix_rows(data, prefix1(id))) == stored_properties(data, id),
{
    let read = properties_of_rows(prefix_rows(data, prefix1(id)));
    let rows = prefix_rows(data, prefix1(id));
    assert forall|key: Seq<u8>| read.contains_key(key) implies is_text(key) by {
        lemma_properties_of_rows_members(rows, key);
        let i = choose|i: int| 0 <= i < rows.len() && #[trigger] row_gives(rows[i], key);
    }
    assert forall|key: Seq<u8>|
        read.contains_key(key) <==> #[trigger] stored_properties(data, id).contains_key(key) by {
        if is_text(key) {
            lemma_node_properties_mean(data, id, key);
        }
    }
    assert forall|key: Seq<u8>| read.contains_key(key) implies read[key] == stored_properties(
        data,
        id,
    )[key] by {
        lemma_node_properties_mean(data, id, key);
    }
    assert(read =~= stored_properties(data, id));
}

/// The row gives the property `key` to the node `id`.
pub open spec fn row_gives_to(row: Pair, id: Seq<u8>, key: Seq<u8>) -> bool {
    row_own_property(row, id) == Some((key, row.1))
}

/// A key is among the properties that rows give to a node exactly where
/// some row gives it to the node.
proof fn lemma_own_properties_members(rows: Seq<Pair>, id: Seq<u8>, key: Seq<u8>)
    ensures
        own_properties(rows, id).contains_key(key) <==> exists|i: int|
            0 <= i < rows.len() && #[trigger] row_gives_to(rows[i], id, key),
    decreases rows.len(),
{
    if rows.len() > 0 {
        let less = rows.drop_last();
        lemma_own_properties_members(less, id, key);
        let last = rows.len() - 1;
        if own_properties(rows, id).contains_key(key) {
            if row_gives_to(rows[last], id, key) {
            } else {
                assert(own_properties(less, id).contains_key(key));
                let i = choose|i: int|
                    0 <= i < less.len() && #[trigger] row_gives_to(less[i], id, key);
                assert(less[i] == rows[i]);
                assert(row_gives_to(rows[i], id, key));
            }
        }
        if exists|i: int| 0 <= i < rows.len() && #[trigger] row_gives_to(rows[i], id, key) {
            let i = choose|i: int| 0 <= i < rows.len() && #[trigger] row_gives_to(rows[i], id, key);
            if i < last {
                assert(less[i] == rows[i]);
                assert(row_gives_to(less[i], id, key));
            }
        }
    }
}

/// The value of a property that rows give to a node is that of the last row
/// that gives it.
proof fn lemma_own_properties_value(rows: Seq<Pair>, id: Seq<u8>, key: Seq<u8>, i: int)
    requires
        0 <= i < rows.len(),
        row_gives_to(rows[i], id, key),
        forall|j: int| i < j < rows.len() ==> !#[trigger] row_gives_to(rows[j], id, key),
    ensures
        own_properties(rows, id).contains_key(key),
        own_properties(rows, id)[key] == rows[i].1,
    decreases rows.len(),
{
    let last = rows.len() - 1;
    if i < last {
        let less = rows.drop_last();
        assert(less[i] == rows[i]);
        assert forall|j: int| i < j < less.len() implies !#[trigger] row_gives_to(
            less[j],
            id,
            key,
        ) by {
            assert(less[j] == rows[j]);
        }
        lemma_own_properties_value(less, id, key, i);
        assert(!row_gives_to(rows[last], id, key));
    }
}

/// What a read of one node takes as its properties: the walk over all
/// property rows gives the node exactly the properties that the rows hold
/// for it, provided that the keys of the rows are made of strings.
pub proof fn lemma_fetched_properties_are_the_stored(data: Map<Seq<u8>, Seq<u8>>, id: Seq<u8>)
    requires
        has_scan(data, Seq::<u8>::empty()),
        node_data_keyed(data),
        is_text(id),
    ensures
        own_properties(all_rows(data), id) == stored_properties(data, id),
{
    let rows = all_rows(data);
    let read = own_properties(rows, id);
    assert forall|i: int, key: Seq<u8>| 0 <= i < rows.len() implies #[trigger] row_gives_to(
        rows[i],
        id,
        key,
    ) == (is_text(key) && rows[i].0 == join2(id, key)) by {
        let row = rows[i].0;
        assert(data.contains_key(row));
        let (a, b) = choose|a: Seq<u8>, b: Seq<u8>| is_text(b) && row == #[trigger] join2(a, b);
        lemma_cut2_join2(a, b);
        lemma_decode_escape(b);
        lemma_unescape_escape(a);
        if row == join2(id, key) {
            crate::keys::lemma_join2_injective(a, b, id, key);
        }
    }
    assert forall|key: Seq<u8>|
        read.contains_key(key) <==> #[trigger] stored_properties(data, id).contains_key(key) by {
        lemma_own_properties_members(rows, id, key);
        if is_text(key) && data.contains_key(join2(id, key)) {
            assert(has_prefix(join2(id, key), Seq::<u8>::empty())) by {
                assert(join2(id, key).subrange(0, 0) =~= Seq::<u8>::empty());
            }
            assert(has_key(rows, join2(id, key)));
            let i = choose|i: int| 0 <= i < rows.len() && #[trigger] rows[i].0 == join2(id, key);
            assert(row_gives_to(rows[i], id, key));
        }
        if read.contains_key(key) {
            let i = choose|i: int| 0 <= i < rows.len() && #[trigger] row_gives_to(rows[i], id, key);
            assert(rows[i].0 == join2(id, key));
            assert(data.contains_key(rows[i].0));
        }
    }
    assert forall|key: Seq<u8>| read.contains_key(key) implies read[key] == stored_properties(
        data,
        id,
    )[key] by {
        lemma_own_properties_members(rows, id, key);
        let i = choose|i: int| 0 <= i < rows.len() && #[trigger] row_gives_to(rows[i], id, key);
        assert(rows[i].0 == join2(id, key));
        assert forall|j: int| i < j < rows.len() implies !#[trigger] row_gives_to(
            rows[j],
            id,
            key,
        ) by {
            if rows[j].0 == join2(id, key) {
                crate::text::lemma_lex_irreflexive(rows[i].0);
            }
        }
        lemma_own_properties_value(rows, id, key, i);
        assert(data[rows[i].0] == rows[i].1);
    }
    assert(read =~= stored_properties(data, id));
}

/// A read of one node and a listing take the same properties for it: both
/// take those that the property rows hold for the node.
pub proof fn lemma_fetched_and_listed_properties_agree(data: Map<Seq<u8>, Seq<u8>>, id: Seq<u8>)
    requires
        has_scan(data, Seq::<u8>::empty()),
        has_scan(data, prefix1(id)),
        node_data_keyed(data),
        is_text(id),
    ensures
        own_properties(all_rows(data), id) == properties_of_rows(prefix_rows(data, prefix1(id))),
{
    lemma_fetched_properties_are_the_stored(data, id);
    lemma_listed_properties_are_the_stored(data, id);
}

/// The node `id` has the status `active` in the property rows.
pub open spec fn stored_active(data: Map<Seq<u8>, Seq<u8>>, id: Seq<u8>) -> bool {
    data.contains_key(join2(id, utf8(STATUS_KEY@))) && data[join2(id, utf8(STATUS_KEY@))] == utf8(
        STATUS_ACTIVE@,
    )
}

/// The edge has the status `active` in the property rows.
pub open spec fn stored_active_edge(data: Map<Seq<u8>, Seq<u8>>, from: Seq<u8>, to: Seq<u8>) -> bool {
    data.contains_key(join3(from, to, utf8(STATUS_KEY@))) && data[join3(
        from,
        to,
        utf8(STATUS_KEY@),
    )] == utf8(STATUS_ACTIVE@)
}

/// The cache and the active set, for the nodes: the cache that the tables
/// give holds a node exactly where the property rows give it the status
/// `active`, provided that the node index is coherent with the rows and its
/// keys are made of strings.
pub proof fn lemma_cache_holds_the_active_nodes(
    graph: GraphModel,
    node_index: Map<Seq<u8>, Seq<u8>>,
    edge_index: Map<Seq<u8>, Seq<u8>>,
    node_data: Map<Seq<u8>, Seq<u8>>,
    edge_data: Map<Seq<u8>, Seq<u8>>,
    schema: SchemaCache,
    id: Seq<u8>,
)
    requires
        is_load_of(graph, node_index, edge_index, node_data, edge_data, schema),
        node_index_keyed(node_index),
        node_index_coherent(node_data, node_index),
        is_text(id),
    ensures
        graph.contains_key(id) <==> stored_active(node_data, id),
{
    lemma_index_scan_names(node_index, utf8(STATUS_KEY@), utf8(STATUS_ACTIVE@), id);
    let status = utf8(STATUS_KEY@);
    let active = utf8(STATUS_ACTIVE@);
    let ids = active_node_ids(node_index);
    assert(ids == ids_of_rows(prefix_rows(node_index, prefix2(status, active))));
    assert(graph.contains_key(id) <==> set_of(ids).contains(id));
    assert(set_of(ids).contains(id) <==> ids.contains(id));
    assert(ids.contains(id) <==> node_index.contains_key(join3(status, active, id)));
    if stored_active(node_data, id) {
        assert(node_data.contains_key(join2(id, status)));
        assert(node_index.contains_key(join3(status, node_data[join2(id, status)], id)));
    }
    if node_index.contains_key(join3(status, active, id)) {
        assert(node_data.contains_key(join2(id, status)) && node_data[join2(id, status)] == active);
    }
}

/// The cache and the active set, for the edges: the cache that the tables
/// give holds an edge exactly where the property rows give it and its two
/// ends the status `active`, provided that the indexes are coherent with
/// the rows and their keys are made of strings.
pub proof fn lemma_cache_holds_the_active_edges(
    graph: GraphModel,
    node_index: Map<Seq<u8>, Seq<u8>>,
    edge_index: Map<Seq<u8>, Seq<u8>>,
    node_data: Map<Seq<u8>, Seq<u8>>,
    edge_data: Map<Seq<u8>, Seq<u8>>,
    schema: SchemaCache,
    from: Seq<u8>,
    to: Seq<u8>,
)
    requires
        is_load_of(graph, node_index, edge_index, node_data, edge_data, schema),
        node_index_keyed(node_index),
        edge_index_keyed(edge_index),
        node_index_coherent(node_data, node_index),
        crate::index::edge_index_coherent(edge_data, edge_index),
        is_text(from),
        is_text(to),
    ensures
        edge_in(graph, from, to) <==> stored_active_edge(edge_data, from, to) && stored_active(
            node_data,
            from,
        ) && stored_active(node_data, to),
{
    let nodes = set_of(active_node_ids(node_index));
    let named = active_edge_ids(edge_index);
    lemma_cache_holds_the_active_nodes(
        graph,
        node_index,
        edge_index,
        node_data,
        edge_data,
        schema,
        from,
    );
    lemma_cache_holds_the_active_nodes(graph, node_index, edge_index, node_data, edge_data, schema, to);
    assert(edge_in(graph, from, to) <==> joining(named, nodes).contains((from, to)));
    if active_node_ids(node_index).len() > 0 {
        lemma_joining_members(named, nodes, (from, to));
        lemma_edge_index_scan_names(edge_index, utf8(STATUS_KEY@), utf8(STATUS_ACTIVE@), from, to);
        let entry = join4(utf8(STATUS_KEY@), utf8(STATUS_ACTIVE@), from, to);
        if stored_active_edge(edge_data, from, to) {
            assert(edge_data.contains_key(join3(from, to, utf8(STATUS_KEY@))));
        }
        if edge_index.contains_key(entry) {
            assert(edge_index.contains_key(join4(utf8(STATUS_KEY@), utf8(STATUS_ACTIVE@), from, to)));
        }
    } else {
        assert(!nodes.contains(from));
        assert(!graph.contains_key(from));
    }
}

} // verus!
