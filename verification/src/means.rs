use vstd::prelude::*;
use crate::text::{utf8, has_prefix};
use crate::codec::{KEY_SEP, escape};
use crate::keys::{join2, join3, prefix1, prefix2, lemma_cut2_joined, lemma_cut2_join2, lemma_cut3_join3, lemma_escape_injective, lemma_join2_injective, lemma_join3_injective};
use crate::assoc::has_key;
use crate::props::Pair;
use crate::graph::{Properties, NodeModel};
use crate::groups::{props_or_empty, with_property};
use crate::store::{prefix_rows, has_scan};
use crate::reads::{row_edge_property, row_third_property, groups_of_rows, edge_properties_of_rows, edges_of_rows};
use crate::views::{Tables, fetched_node, listed_node, listed_nodes, shown_node_data, has_type, edge_listing, edge_key_set, all_rows, row_own_edge_property, own_groups, row_keyed_property, keyed_groups, listed_edge, listed_edges, shown_edge_data, own_edges, row_own_target, source_edge, source_edges, swept_edges, row_ends, passes, ListedEdge, typed_edge, typed_edges};
use crate::schema::{SchemaCache, active_data, STATUS_KEY, STATUS_ACTIVE, TYPE_KEY};
use crate::canon::{is_text, lemma_decode_escape, node_data_keyed, stored_properties, lemma_fetched_properties_are_the_stored, lemma_listed_properties_are_the_stored};

verus! {

/// Every key of the property rows of the edges is made of three strings.
pub open spec fn edge_data_keyed(data: Map<Seq<u8>, Seq<u8>>) -> bool {
    forall|row: Seq<u8>| #[trigger]
        data.contains_key(row) ==> exists|from: Seq<u8>, to: Seq<u8>, key: Seq<u8>|
            is_text(from) && is_text(to) && is_text(key) && row == #[trigger] join3(from, to, key)
}

/// The properties that the property rows hold for an edge: under each key
/// that is a string, the value of the row whose key is made of the two ends
/// and that key.
pub open spec fn stored_edge_properties(
    data: Map<Seq<u8>, Seq<u8>>,
    from: Seq<u8>,
    to: Seq<u8>,
) -> Properties {
    Map::new(
        |key: Seq<u8>| is_text(key) && data.contains_key(join3(from, to, key)),
        |key: Seq<u8>| data[join3(from, to, key)],
    )
}

/// The groups of properties that rows give, where `part` says to which
/// group a row gives which property; a later row wins.
pub open spec fn grouped(rows: Seq<Pair>, part: spec_fn(Pair) -> Option<(Seq<u8>, Pair)>) -> Map<
    Seq<u8>,
    Properties,
>
    decreases rows.len(),
{
    if rows.len() == 0 {
        Map::empty()
    } else {
        let before = grouped(rows.drop_last(), part);
        match part(rows.last()) {
            Some((name, property)) => with_property(before, name, property.0, property.1),
            None => before,
        }
    }
}

/// The row gives the property `key` to the group `name`.
pub open spec fn gives(
    part: spec_fn(Pair) -> Option<(Seq<u8>, Pair)>,
    row: Pair,
    name: Seq<u8>,
    key: Seq<u8>,
) -> bool {
    part(row) == Some((name, (key, row.1)))
}

/// Each part of a row carries the value of the row.
pub open spec fn keeps_values(part: spec_fn(Pair) -> Option<(Seq<u8>, Pair)>) -> bool {
    forall|row: Pair|
        match #[trigger] part(row) {
            Some((_, property)) => property.1 == row.1,
            None => true,
        }
}

/// A key is in a group exactly where some row gives it to the group.
pub proof fn lemma_grouped_members(
    rows: Seq<Pair>,
    part: spec_fn(Pair) -> Option<(Seq<u8>, Pair)>,
    name: Seq<u8>,
    key: Seq<u8>,
)
    requires
        keeps_values(part),
    ensures
        props_or_empty(grouped(rows, part), name).contains_key(key) <==> exists|i: int|
            0 <= i < rows.len() && #[trigger] gives(part, rows[i], name, key),
    decreases rows.len(),
{
    if rows.len() > 0 {
        let less = rows.drop_last();
        lemma_grouped_members(less, part, name, key);
        let last = rows.len() - 1;
        assert(match part(rows[last]) {
            Some((_, property)) => property.1 == rows[last].1,
            None => true,
        });
        if props_or_empty(grouped(rows, part), name).contains_key(key) {
            if gives(part, rows[last], name, key) {
            } else {
                assert(props_or_empty(grouped(less, part), name).contains_key(key));
                let i = choose|i: int|
                    0 <= i < less.len() && #[trigger] gives(part, less[i], name, key);
                assert(less[i] == rows[i]);
                assert(gives(part, rows[i], name, key));
            }
        }
        if exists|i: int| 0 <= i < rows.len() && #[trigger] gives(part, rows[i], name, key) {
            let i = choose|i: int| 0 <= i < rows.len() && #[trigger] gives(part, rows[i], name, key);
            if i < last {
                assert(less[i] == rows[i]);
                assert(gives(part, less[i], name, key));
            }
        }
    }
}

/// The value of a property of a group is that of the last row that gives
/// it to the group.
pub proof fn lemma_grouped_value(
    rows: Seq<Pair>,
    part: spec_fn(Pair) -> Option<(Seq<u8>, Pair)>,
    name: Seq<u8>,
    key: Seq<u8>,
    i: int,
)
    requires
        keeps_values(part),
        0 <= i < rows.len(),
        gives(part, rows[i], name, key),
        forall|j: int| i < j < rows.len() ==> !#[trigger] gives(part, rows[j], name, key),
    ensures
        props_or_empty(grouped(rows, part), name).contains_key(key),
        props_or_empty(grouped(rows, part), name)[key] == rows[i].1,
    decreases rows.len(),
{
    let last = rows.len() - 1;
    assert(match part(rows[last]) {
        Some((_, property)) => property.1 == rows[last].1,
        None => true,
    });
    if i < last {
        let less = rows.drop_last();
        assert(less[i] == rows[i]);
        assert forall|j: int| i < j < less.len() implies !#[trigger] gives(
            part,
            less[j],
            name,
            key,
        ) by {
            assert(less[j] == rows[j]);
        }
        lemma_grouped_value(less, part, name, key, i);
        assert(!gives(part, rows[last], name, key));
    }
}

/// A group of rows with distinct keys is what the table holds, where a row
/// gives a property to the group exactly where its key is the one that
/// `place` makes of the key of the property.
pub proof fn lemma_group_is_stored(
    rows: Seq<Pair>,
    data: Map<Seq<u8>, Seq<u8>>,
    part: spec_fn(Pair) -> Option<(Seq<u8>, Pair)>,
    name: Seq<u8>,
    place: spec_fn(Seq<u8>) -> Seq<u8>,
)
    requires
        keeps_values(part),
        forall|i: int|
            0 <= i < rows.len() ==> data.contains_key((#[trigger] rows[i]).0) && data[rows[i].0]
                == rows[i].1,
        forall|i: int, j: int| 0 <= i < j < rows.len() ==> rows[i].0 != rows[j].0,
        forall|key: Seq<u8>|
            is_text(key) && data.contains_key(#[trigger] place(key)) ==> has_key(rows, place(key)),
        forall|i: int, key: Seq<u8>|
            0 <= i < rows.len() ==> #[trigger] gives(part, rows[i], name, key) == (is_text(key)
                && rows[i].0 == place(key)),
    ensures
        props_or_empty(grouped(rows, part), name) == Map::new(
            |key: Seq<u8>| is_text(key) && data.contains_key(place(key)),
            |key: Seq<u8>| data[place(key)],
        ),
{
    let read = props_or_empty(grouped(rows, part), name);
    let held = Map::new(
        |key: Seq<u8>| is_text(key) && data.contains_key(place(key)),
        |key: Seq<u8>| data[place(key)],
    );
    assert forall|key: Seq<u8>| read.contains_key(key) <==> #[trigger] held.contains_key(key) by {
        lemma_grouped_members(rows, part, name, key);
        if held.contains_key(key) {
            assert(has_key(rows, place(key)));
            let i = choose|i: int| 0 <= i < rows.len() && #[trigger] rows[i].0 == place(key);
            assert(gives(part, rows[i], name, key));
        }
        if read.contains_key(key) {
            let i = choose|i: int| 0 <= i < rows.len() && #[trigger] gives(part, rows[i], name, key);
            assert(rows[i].0 == place(key));
        }
    }
    assert forall|key: Seq<u8>| read.contains_key(key) implies read[key] == held[key] by {
        lemma_grouped_members(rows, part, name, key);
        let i = choose|i: int| 0 <= i < rows.len() && #[trigger] gives(part, rows[i], name, key);
        assert(rows[i].0 == place(key));
        assert forall|j: int| i < j < rows.len() implies !#[trigger] gives(
            part,
            rows[j],
            name,
            key,
        ) by {}
        lemma_grouped_value(rows, part, name, key, i);
    }
    assert(read =~= held);
}

/// The groups that the property rows of the edges of one node give are
/// groups in this sense.
pub proof fn lemma_groups_of_rows_are_grouped(rows: Seq<Pair>)
    ensures
        groups_of_rows(rows) == grouped(rows, |row: Pair| row_edge_property(row)),
    decreases rows.len(),
{
    if rows.len() > 0 {
        lemma_groups_of_rows_are_grouped(rows.drop_last());
    }
}

/// The groups that a read of one node takes are groups in this sense.
pub proof fn lemma_own_groups_are_grouped(rows: Seq<Pair>, id: Seq<u8>)
    ensures
        own_groups(rows, id) == grouped(rows, |row: Pair| row_own_edge_property(row, id)),
    decreases rows.len(),
{
    if rows.len() > 0 {
        lemma_own_groups_are_grouped(rows.drop_last(), id);
    }
}

/// The groups that a listing of all edges takes are groups in this sense.
pub proof fn lemma_keyed_groups_are_grouped(rows: Seq<Pair>)
    ensures
        keyed_groups(rows) == grouped(rows, |row: Pair| row_keyed_property(row)),
    decreases rows.len(),
{
    if rows.len() > 0 {
        lemma_keyed_groups_are_grouped(rows.drop_last());
    }
}

/// Every key starts with the empty prefix.
pub proof fn lemma_empty_prefix(key: Seq<u8>)
    ensures
        has_prefix(key, Seq::<u8>::empty()),
{
    assert(key.subrange(0, 0) =~= Seq::<u8>::empty());
}

/// A key of three components starts with the encoded first component.
pub proof fn lemma_join3_has_prefix1(from: Seq<u8>, to: Seq<u8>, key: Seq<u8>)
    ensures
        has_prefix(join3(from, to, key), prefix1(from)),
{
    let s = join3(from, to, key);
    let p = prefix1(from);
    assert(s =~= p + join2(to, key));
    assert(s.subrange(0, p.len() as int) =~= p);
}

/// A key of three components that starts with the prefix of a node is a key
/// of that node.
pub proof fn lemma_prefix1_of_join3(id: Seq<u8>, a: Seq<u8>, b: Seq<u8>, c: Seq<u8>)
    requires
        has_prefix(join3(a, b, c), prefix1(id)),
    ensures
        a == id,
{
    let s = join3(a, b, c);
    let p = prefix1(id);
    let tail = s.skip(p.len() as int);
    assert(s =~= s.subrange(0, p.len() as int) + tail);
    assert(s =~= escape(id) + seq![KEY_SEP] + tail);
    lemma_cut2_joined(id, tail);
    lemma_cut2_joined(a, join2(b, c));
    lemma_escape_injective(a, id);
}

/// What a listing of the edges of a node reads as the properties of one of
/// them: the group of the target holds exactly the properties that the rows
/// hold for the edge, provided that the keys of the rows are made of
/// strings.
pub proof fn lemma_listed_group_is_the_stored(
    data: Map<Seq<u8>, Seq<u8>>,
    from: Seq<u8>,
    to: Seq<u8>,
)
    requires
        has_scan(data, prefix1(from)),
        edge_data_keyed(data),
        is_text(to),
    ensures
        props_or_empty(groups_of_rows(prefix_rows(data, prefix1(from))), to)
            == stored_edge_properties(data, from, to),
{
    let rows = prefix_rows(data, prefix1(from));
    let part = |row: Pair| row_edge_property(row);
    let place = |key: Seq<u8>| join3(from, to, key);
    lemma_groups_of_rows_are_grouped(rows);
    assert forall|i: int, key: Seq<u8>| 0 <= i < rows.len() implies #[trigger] gives(
        part,
        rows[i],
        to,
        key,
    ) == (is_text(key) && rows[i].0 == place(key)) by {
        let row = rows[i].0;
        assert(data.contains_key(row) && has_prefix(row, prefix1(from)));
        let (a, b, c) = choose|a: Seq<u8>, b: Seq<u8>, c: Seq<u8>|
            is_text(a) && is_text(b) && is_text(c) && row == #[trigger] join3(a, b, c);
        lemma_prefix1_of_join3(from, a, b, c);
        lemma_cut3_join3(a, b, c);
        lemma_decode_escape(b);
        lemma_decode_escape(c);
        if row == join3(from, to, key) {
            lemma_join3_injective(a, b, c, from, to, key);
        }
    }
    assert forall|key: Seq<u8>|
        is_text(key) && data.contains_key(#[trigger] place(key)) implies has_key(
        rows,
        place(key),
    ) by {
        lemma_join3_has_prefix1(from, to, key);
    }
    assert forall|i: int, j: int| 0 <= i < j < rows.len() implies rows[i].0 != rows[j].0 by {
        if rows[i].0 == rows[j].0 {
            crate::text::lemma_lex_irreflexive(rows[i].0);
        }
    }
    lemma_group_is_stored(rows, data, part, to, place);
    assert(stored_edge_properties(data, from, to) =~= Map::new(
        |key: Seq<u8>| is_text(key) && data.contains_key(place(key)),
        |key: Seq<u8>| data[place(key)],
    ));
}

/// What a read of one node takes as the properties of one of its edges: the
/// group of the target holds exactly the properties that the rows hold for
/// the edge, provided that the keys of the rows are made of strings.
pub proof fn lemma_fetched_group_is_the_stored(
    data: Map<Seq<u8>, Seq<u8>>,
    from: Seq<u8>,
    to: Seq<u8>,
)
    requires
        has_scan(data, Seq::<u8>::empty()),
        edge_data_keyed(data),
        is_text(from),
        is_text(to),
    ensures
        props_or_empty(own_groups(all_rows(data), from), to) == stored_edge_properties(
            data,
            from,
            to,
        ),
{
    let rows = all_rows(data);
    let part = |row: Pair| row_own_edge_property(row, from);
    let place = |key: Seq<u8>| join3(from, to, key);
    lemma_own_groups_are_grouped(rows, from);
    assert forall|i: int, key: Seq<u8>| 0 <= i < rows.len() implies #[trigger] gives(
        part,
        rows[i],
        to,
        key,
    ) == (is_text(key) && rows[i].0 == place(key)) by {
        let row = rows[i].0;
        assert(data.contains_key(row));
        let (a, b, c) = choose|a: Seq<u8>, b: Seq<u8>, c: Seq<u8>|
            is_text(a) && is_text(b) && is_text(c) && row == #[trigger] join3(a, b, c);
        lemma_cut3_join3(a, b, c);
        lemma_decode_escape(a);
        lemma_decode_escape(b);
        lemma_decode_escape(c);
        if row == join3(from, to, key) {
            lemma_join3_injective(a, b, c, from, to, key);
        }
    }
    assert forall|key: Seq<u8>|
        is_text(key) && data.contains_key(#[trigger] place(key)) implies has_key(
        rows,
        place(key),
    ) by {
        lemma_empty_prefix(place(key));
    }
    assert forall|i: int, j: int| 0 <= i < j < rows.len() implies rows[i].0 != rows[j].0 by {
        if rows[i].0 == rows[j].0 {
            crate::text::lemma_lex_irreflexive(rows[i].0);
        }
    }
    lemma_group_is_stored(rows, data, part, to, place);
    assert(stored_edge_properties(data, from, to) =~= Map::new(
        |key: Seq<u8>| is_text(key) && data.contains_key(place(key)),
        |key: Seq<u8>| data[place(key)],
    ));
}

/// What a listing of all edges reads as the properties of one of them: the
/// group of the key of the edge holds exactly the properties that the rows
/// hold for the edge, provided that the keys of the rows are made of
/// strings.
pub proof fn lemma_swept_group_is_the_stored(
    data: Map<Seq<u8>, Seq<u8>>,
    from: Seq<u8>,
    to: Seq<u8>,
)
    requires
        has_scan(data, Seq::<u8>::empty()),
        edge_data_keyed(data),
        is_text(from),
        is_text(to),
    ensures
        props_or_empty(keyed_groups(all_rows(data)), join2(from, to)) == stored_edge_properties(
            data,
            from,
            to,
        ),
{
    let rows = all_rows(data);
    let part = |row: Pair| row_keyed_property(row);
    let place = |key: Seq<u8>| join3(from, to, key);
    lemma_keyed_groups_are_grouped(rows);
    assert forall|i: int, key: Seq<u8>| 0 <= i < rows.len() implies #[trigger] gives(
        part,
        rows[i],
        join2(from, to),
        key,
    ) == (is_text(key) && rows[i].0 == place(key)) by {
        let row = rows[i].0;
        assert(data.contains_key(row));
        let (a, b, c) = choose|a: Seq<u8>, b: Seq<u8>, c: Seq<u8>|
            is_text(a) && is_text(b) && is_text(c) && row == #[trigger] join3(a, b, c);
        lemma_cut3_join3(a, b, c);
        lemma_decode_escape(a);
        lemma_decode_escape(b);
        lemma_decode_escape(c);
        if join2(a, b) == join2(from, to) {
            lemma_join2_injective(a, b, from, to);
        }
        if row == join3(from, to, key) {
            lemma_join3_injective(a, b, c, from, to, key);
        }
    }
    assert forall|key: Seq<u8>|
        is_text(key) && data.contains_key(#[trigger] place(key)) implies has_key(
        rows,
        place(key),
    ) by {
        lemma_empty_prefix(place(key));
    }
    assert forall|i: int, j: int| 0 <= i < j < rows.len() implies rows[i].0 != rows[j].0 by {
        if rows[i].0 == rows[j].0 {
            crate::text::lemma_lex_irreflexive(rows[i].0);
        }
    }
    lemma_group_is_stored(rows, data, part, join2(from, to), place);
    assert(stored_edge_properties(data, from, to) =~= Map::new(
        |key: Seq<u8>| is_text(key) && data.contains_key(place(key)),
        |key: Seq<u8>| data[place(key)],
    ));
}

/// Every key of the edge table is made of two strings.
pub open spec fn edges_keyed(edges: Map<Seq<u8>, Seq<u8>>) -> bool {
    forall|row: Seq<u8>| #[trigger]
        edges.contains_key(row) ==> exists|from: Seq<u8>, to: Seq<u8>|
            is_text(from) && is_text(to) && row == #[trigger] join2(from, to)
}

/// What `pick` takes of the items of a list, in the order of the list.
pub open spec fn picked<A, T>(items: Seq<A>, pick: spec_fn(A) -> Option<T>) -> Seq<T>
    decreases items.len(),
{
    if items.len() == 0 {
        Seq::empty()
    } else {
        let before = picked(items.drop_last(), pick);
        match pick(items.last()) {
            Some(taken) => before.push(taken),
            None => before,
        }
    }
}

/// Something is among what is picked exactly where it is taken of some
/// item.
pub proof fn lemma_picked_members<A, T>(items: Seq<A>, pick: spec_fn(A) -> Option<T>, x: T)
    ensures
        picked(items, pick).contains(x) <==> exists|i: int|
            0 <= i < items.len() && #[trigger] pick(items[i]) == Some(x),
    decreases items.len(),
{
    if items.len() > 0 {
        let less = items.drop_last();
        let last = items.len() - 1;
        lemma_picked_members(less, pick, x);
        let before = picked(less, pick);
        let all = picked(items, pick);
        if all.contains(x) {
            let k = choose|k: int| 0 <= k < all.len() && all[k] == x;
            if k < before.len() {
                assert(before[k] == x);
                assert(before.contains(x));
                let i = choose|i: int| 0 <= i < less.len() && #[trigger] pick(less[i]) == Some(x);
                assert(less[i] == items[i]);
                assert(pick(items[i]) == Some(x));
            } else {
                assert(pick(items[last]) == Some(x));
            }
        }
        if exists|i: int| 0 <= i < items.len() && #[trigger] pick(items[i]) == Some(x) {
            let i = choose|i: int| 0 <= i < items.len() && #[trigger] pick(items[i]) == Some(x);
            if i < last {
                assert(less[i] == items[i]);
                assert(pick(less[i]) == Some(x));
                assert(before.contains(x));
                let k = choose|k: int| 0 <= k < before.len() && before[k] == x;
                assert(all[k] == x);
            } else {
                assert(all[all.len() - 1] == x);
            }
        }
    }
}

/// The edges that a listing shows for a node are picked of the rows.
pub proof fn lemma_listed_edges_are_picked(
    rows: Seq<Pair>,
    groups: Map<Seq<u8>, Properties>,
    active: Set<Seq<u8>>,
    schema: SchemaCache,
    hydrate: bool,
)
    ensures
        listed_edges(rows, groups, active, schema, hydrate) == picked(
            rows,
            |row: Pair| listed_edge(row, groups, active, schema, hydrate),
        ),
    decreases rows.len(),
{
    if rows.len() > 0 {
        lemma_listed_edges_are_picked(rows.drop_last(), groups, active, schema, hydrate);
    }
}

/// What a listing shows as the edges of a node: an edge to `to` with the
/// properties `shown` is among them exactly where the edge has a row, its
/// target is among the active nodes, the properties that the rows hold for
/// it are those of an active edge, and `shown` is what a reader gets of
/// them; provided that the keys of the rows are made of strings.
pub proof fn lemma_listed_edges_mean(
    edges: Map<Seq<u8>, Seq<u8>>,
    edge_data: Map<Seq<u8>, Seq<u8>>,
    active: Set<Seq<u8>>,
    schema: SchemaCache,
    hydrate: bool,
    id: Seq<u8>,
    to: Seq<u8>,
    shown: Properties,
)
    requires
        has_scan(edges, prefix1(id)),
        has_scan(edge_data, prefix1(id)),
        edges_keyed(edges),
        edge_data_keyed(edge_data),
    ensures
        listed_edges(
            prefix_rows(edges, prefix1(id)),
            groups_of_rows(prefix_rows(edge_data, prefix1(id))),
            active,
            schema,
            hydrate,
        ).contains((to, shown)) <==> is_text(to) && edges.contains_key(join2(id, to))
            && active.contains(to) && active_data(stored_edge_properties(edge_data, id, to))
            && shown == shown_edge_data(
            schema,
            stored_edge_properties(edge_data, id, to),
            hydrate,
        ),
{
    let rows = prefix_rows(edges, prefix1(id));
    let groups = groups_of_rows(prefix_rows(edge_data, prefix1(id)));
    let pick = |row: Pair| listed_edge(row, groups, active, schema, hydrate);
    lemma_listed_edges_are_picked(rows, groups, active, schema, hydrate);
    lemma_picked_members(rows, pick, (to, shown));
    assert forall|i: int| 0 <= i < rows.len() implies (#[trigger] pick(rows[i]) == Some(
        (to, shown),
    )) == (rows[i].0 == join2(id, to) && is_text(to) && active.contains(to) && active_data(
        stored_edge_properties(edge_data, id, to),
    ) && shown == shown_edge_data(schema, stored_edge_properties(edge_data, id, to), hydrate)) by {
        let row = rows[i].0;
        assert(edges.contains_key(row) && has_prefix(row, prefix1(id)));
        let (a, b) = choose|a: Seq<u8>, b: Seq<u8>|
            is_text(a) && is_text(b) && row == #[trigger] join2(a, b);
        crate::canon::lemma_prefix1_of_join2(id, a, b);
        lemma_cut2_join2(a, b);
        lemma_decode_escape(b);
        lemma_listed_group_is_the_stored(edge_data, id, b);
        if row == join2(id, to) {
            lemma_join2_injective(a, b, id, to);
        }
    }
    if is_text(to) && edges.contains_key(join2(id, to)) {
        crate::canon::lemma_join2_has_prefix1(id, to);
        assert(has_key(rows, join2(id, to)));
        let i = choose|i: int| 0 <= i < rows.len() && #[trigger] rows[i].0 == join2(id, to);
        assert(0 <= i < rows.len() && (pick(rows[i]) == Some((to, shown)) <==> active.contains(to)
            && active_data(stored_edge_properties(edge_data, id, to)) && shown
            == shown_edge_data(schema, stored_edge_properties(edge_data, id, to), hydrate)));
    }
    if exists|i: int| 0 <= i < rows.len() && #[trigger] pick(rows[i]) == Some((to, shown)) {
        let i = choose|i: int| 0 <= i < rows.len() && #[trigger] pick(rows[i]) == Some((to, shown));
        assert(edges.contains_key(rows[i].0));
    }
}

/// The edge that a row of the edge table gives to a read of the node `id`,
/// where the properties of each edge are looked up in `groups`.
pub open spec fn own_edge(
    row: Pair,
    id: Seq<u8>,
    groups: Map<Seq<u8>, Properties>,
    schema: SchemaCache,
    hydrate: bool,
) -> Option<(Seq<u8>, Properties)> {
    match row_own_target(row, id) {
        Some(to) => if active_data(props_or_empty(groups, to)) {
            Some((to, shown_edge_data(schema, props_or_empty(groups, to), hydrate)))
        } else {
            None
        },
        None => None,
    }
}

/// No two rows hold an edge out of the node `id` to one target.
pub open spec fn targets_differ(rows: Seq<Pair>, id: Seq<u8>) -> bool {
    forall|i: int, j: int|
        0 <= i < j < rows.len() && row_own_target(rows[i], id) is Some ==> row_own_target(
            rows[i],
            id,
        ) != row_own_target(rows[j], id)
}

/// The edges that a read of one node takes are picked of the rows, each
/// with the properties that the groups hold for it at the start: that the
/// read takes a group away once it has met its edge changes nothing where
/// no two rows hold one edge.
pub proof fn lemma_own_edges_are_picked(
    rows: Seq<Pair>,
    id: Seq<u8>,
    groups: Map<Seq<u8>, Properties>,
    schema: SchemaCache,
    hydrate: bool,
)
    requires
        targets_differ(rows, id),
    ensures
        own_edges(rows, id, groups, schema, hydrate).1 == picked(
            rows,
            |row: Pair| own_edge(row, id, groups, schema, hydrate),
        ),
        forall|name: Seq<u8>|
            (forall|i: int| 0 <= i < rows.len() ==> #[trigger] row_own_target(rows[i], id) != Some(
                name,
            )) ==> props_or_empty(
                own_edges(rows, id, groups, schema, hydrate).0,
                name,
            ) == #[trigger] props_or_empty(groups, name),
    decreases rows.len(),
{
    if rows.len() > 0 {
        let less = rows.drop_last();
        let last = rows.len() - 1;
        assert forall|i: int, j: int|
            0 <= i < j < less.len() && row_own_target(less[i], id) is Some implies row_own_target(
            less[i],
            id,
        ) != row_own_target(less[j], id) by {
            assert(less[i] == rows[i] && less[j] == rows[j]);
        }
        lemma_own_edges_are_picked(less, id, groups, schema, hydrate);
        let before = own_edges(less, id, groups, schema, hydrate);
        match row_own_target(rows[last], id) {
            Some(to) => {
                assert forall|i: int| 0 <= i < less.len() implies #[trigger] row_own_target(
                    less[i],
                    id,
                ) != Some(to) by {
                    assert(less[i] == rows[i]);
                }
                assert(props_or_empty(before.0, to) == props_or_empty(groups, to));
            },
            None => {},
        }
        assert forall|name: Seq<u8>|
            (forall|i: int| 0 <= i < rows.len() ==> #[trigger] row_own_target(rows[i], id) != Some(
                name,
            )) implies props_or_empty(own_edges(rows, id, groups, schema, hydrate).0, name)
            == #[trigger] props_or_empty(groups, name) by {
            assert forall|i: int| 0 <= i < less.len() implies #[trigger] row_own_target(
                less[i],
                id,
            ) != Some(name) by {
                assert(less[i] == rows[i]);
            }
            assert(row_own_target(rows[last], id) != Some(name));
        }
    }
}

/// What a read of one node gives as its edges: an edge to `to` with the
/// properties `shown` is among them exactly where the edge has a row, the
/// properties that the rows hold for it are those of an active edge, and
/// `shown` is what a reader gets of them; provided that the keys of the
/// rows are made of strings.
pub proof fn lemma_fetched_edges_mean(
    edges: Map<Seq<u8>, Seq<u8>>,
    edge_data: Map<Seq<u8>, Seq<u8>>,
    schema: SchemaCache,
    hydrate: bool,
    id: Seq<u8>,
    to: Seq<u8>,
    shown: Properties,
)
    requires
        has_scan(edges, Seq::<u8>::empty()),
        has_scan(edge_data, Seq::<u8>::empty()),
        edges_keyed(edges),
        edge_data_keyed(edge_data),
        is_text(id),
    ensures
        own_edges(
            all_rows(edges),
            id,
            own_groups(all_rows(edge_data), id),
            schema,
            hydrate,
        ).1.contains((to, shown)) <==> is_text(to) && edges.contains_key(join2(id, to))
            && active_data(stored_edge_properties(edge_data, id, to)) && shown
            == shown_edge_data(schema, stored_edge_properties(edge_data, id, to), hydrate),
{
    let rows = all_rows(edges);
    let groups = own_groups(all_rows(edge_data), id);
    let pick = |row: Pair| own_edge(row, id, groups, schema, hydrate);
    assert forall|i: int| 0 <= i < rows.len() implies #[trigger] row_own_target(rows[i], id) == (
    if exists|b: Seq<u8>| is_text(b) && rows[i].0 == #[trigger] join2(id, b) {
        Some(choose|b: Seq<u8>| is_text(b) && rows[i].0 == #[trigger] join2(id, b))
    } else {
        None
    }) by {
        let row = rows[i].0;
        assert(edges.contains_key(row));
        let (a, b) = choose|a: Seq<u8>, b: Seq<u8>|
            is_text(a) && is_text(b) && row == #[trigger] join2(a, b);
        lemma_cut2_join2(a, b);
        lemma_decode_escape(a);
        lemma_decode_escape(b);
        if exists|c: Seq<u8>| is_text(c) && row == #[trigger] join2(id, c) {
            let c = choose|c: Seq<u8>| is_text(c) && row == #[trigger] join2(id, c);
            lemma_join2_injective(a, b, id, c);
        }
    }
    assert forall|i: int, j: int|
        0 <= i < j < rows.len() && row_own_target(rows[i], id) is Some implies row_own_target(
        rows[i],
        id,
    ) != row_own_target(rows[j], id) by {
        if row_own_target(rows[i], id) == row_own_target(rows[j], id) {
            let b = choose|b: Seq<u8>| is_text(b) && rows[i].0 == #[trigger] join2(id, b);
            let c = choose|c: Seq<u8>| is_text(c) && rows[j].0 == #[trigger] join2(id, c);
            assert(rows[i].0 == rows[j].0);
            crate::text::lemma_lex_irreflexive(rows[i].0);
        }
    }
    lemma_own_edges_are_picked(rows, id, groups, schema, hydrate);
    lemma_picked_members(rows, pick, (to, shown));
    assert forall|i: int| 0 <= i < rows.len() implies (#[trigger] pick(rows[i]) == Some(
        (to, shown),
    )) == (rows[i].0 == join2(id, to) && is_text(to) && active_data(
        stored_edge_properties(edge_data, id, to),
    ) && shown == shown_edge_data(schema, stored_edge_properties(edge_data, id, to), hydrate)) by {
        let row = rows[i].0;
        if exists|b: Seq<u8>| is_text(b) && row == #[trigger] join2(id, b) {
            let b = choose|b: Seq<u8>| is_text(b) && row == #[trigger] join2(id, b);
            lemma_fetched_group_is_the_stored(edge_data, id, b);
            if row == join2(id, to) {
                lemma_join2_injective(id, b, id, to);
            }
        } else {
            assert(pick(rows[i]) is None);
        }
    }
    if is_text(to) && edges.contains_key(join2(id, to)) {
        lemma_empty_prefix(join2(id, to));
        assert(has_key(rows, join2(id, to)));
        let i = choose|i: int| 0 <= i < rows.len() && #[trigger] rows[i].0 == join2(id, to);
        assert(0 <= i < rows.len() && (pick(rows[i]) == Some((to, shown)) <==> active_data(
            stored_edge_properties(edge_data, id, to),
        ) && shown == shown_edge_data(schema, stored_edge_properties(edge_data, id, to), hydrate)));
    }
    if exists|i: int| 0 <= i < rows.len() && #[trigger] pick(rows[i]) == Some((to, shown)) {
        let i = choose|i: int| 0 <= i < rows.len() && #[trigger] pick(rows[i]) == Some((to, shown));
        assert(edges.contains_key(rows[i].0));
    }
}

/// The edges that a listing by source shows are picked of the rows.
pub proof fn lemma_source_edges_are_picked(
    rows: Seq<Pair>,
    from: Seq<u8>,
    groups: Map<Seq<u8>, Properties>,
    active: Set<Seq<u8>>,
    to_filter: Option<Seq<u8>>,
    schema: SchemaCache,
    hydrate: bool,
)
    ensures
        source_edges(rows, from, groups, active, to_filter, schema, hydrate) == picked(
            rows,
            |row: Pair| source_edge(row, from, groups, active, to_filter, schema, hydrate),
        ),
    decreases rows.len(),
{
    if rows.len() > 0 {
        lemma_source_edges_are_picked(
            rows.drop_last(),
            from,
            groups,
            active,
            to_filter,
            schema,
            hydrate,
        );
    }
}

/// What a listing of the edges out of a node shows: an edge is among them
/// exactly where it starts at the node, has a row, passes the filter, is
/// among the active edges, the properties that the rows hold for it are
/// those of an active edge, and `shown` is what a reader gets of them;
/// provided that the keys of the rows are made of strings.
pub proof fn lemma_source_edges_mean(
    edges: Map<Seq<u8>, Seq<u8>>,
    edge_data: Map<Seq<u8>, Seq<u8>>,
    active: Set<Seq<u8>>,
    to_filter: Option<Seq<u8>>,
    schema: SchemaCache,
    hydrate: bool,
    from: Seq<u8>,
    edge: ListedEdge,
)
    requires
        has_scan(edges, prefix1(from)),
        has_scan(edge_data, prefix1(from)),
        edges_keyed(edges),
        edge_data_keyed(edge_data),
    ensures
        source_edges(
            prefix_rows(edges, prefix1(from)),
            from,
            groups_of_rows(prefix_rows(edge_data, prefix1(from))),
            active,
            to_filter,
            schema,
            hydrate,
        ).contains(edge) <==> edge.0 == from && is_text(edge.1) && edges.contains_key(
            join2(from, edge.1),
        ) && passes(to_filter, edge.1) && active.contains(join2(from, edge.1)) && active_data(
            stored_edge_properties(edge_data, from, edge.1),
        ) && edge.2 == shown_edge_data(
            schema,
            stored_edge_properties(edge_data, from, edge.1),
            hydrate,
        ),
{
    let rows = prefix_rows(edges, prefix1(from));
    let groups = groups_of_rows(prefix_rows(edge_data, prefix1(from)));
    let pick = |row: Pair| source_edge(row, from, groups, active, to_filter, schema, hydrate);
    let to = edge.1;
    let wanted = edge.0 == from && is_text(to) && passes(to_filter, to) && active.contains(
        join2(from, to),
    ) && active_data(stored_edge_properties(edge_data, from, to)) && edge.2 == shown_edge_data(
        schema,
        stored_edge_properties(edge_data, from, to),
        hydrate,
    );
    lemma_source_edges_are_picked(rows, from, groups, active, to_filter, schema, hydrate);
    lemma_picked_members(rows, pick, edge);
    assert forall|i: int| 0 <= i < rows.len() implies (#[trigger] pick(rows[i]) == Some(edge)) == (
    rows[i].0 == join2(from, to) && wanted) by {
        let row = rows[i].0;
        assert(edges.contains_key(row) && has_prefix(row, prefix1(from)));
        let (a, b) = choose|a: Seq<u8>, b: Seq<u8>|
            is_text(a) && is_text(b) && row == #[trigger] join2(a, b);
        crate::canon::lemma_prefix1_of_join2(from, a, b);
        lemma_cut2_join2(a, b);
        lemma_decode_escape(b);
        lemma_listed_group_is_the_stored(edge_data, from, b);
        if row == join2(from, to) {
            lemma_join2_injective(a, b, from, to);
        }
    }
    if is_text(to) && edges.contains_key(join2(from, to)) {
        crate::canon::lemma_join2_has_prefix1(from, to);
        assert(has_key(rows, join2(from, to)));
        let i = choose|i: int| 0 <= i < rows.len() && #[trigger] rows[i].0 == join2(from, to);
        assert(0 <= i < rows.len() && (pick(rows[i]) == Some(edge) <==> wanted));
    }
    if exists|i: int| 0 <= i < rows.len() && #[trigger] pick(rows[i]) == Some(edge) {
        let i = choose|i: int| 0 <= i < rows.len() && #[trigger] pick(rows[i]) == Some(edge);
        assert(edges.contains_key(rows[i].0));
    }
}

/// The key of the edge that a row of the edge table holds.
pub open spec fn row_edge_key(row: Pair) -> Option<Seq<u8>> {
    match row_ends(row) {
        Some((from, to)) => Some(join2(from, to)),
        None => None,
    }
}

/// The edge that a row of the edge table gives to a listing of all edges,
/// where the properties of each edge are looked up in `groups`.
pub open spec fn swept_edge(
    row: Pair,
    groups: Map<Seq<u8>, Properties>,
    active: Set<Seq<u8>>,
    to_filter: Option<Seq<u8>>,
    schema: SchemaCache,
    hydrate: bool,
) -> Option<ListedEdge> {
    match row_ends(row) {
        Some((from, to)) => {
            let data = props_or_empty(groups, join2(from, to));
            if active.contains(join2(from, to)) && passes(to_filter, to) && active_data(data) {
                Some((from, to, shown_edge_data(schema, data, hydrate)))
            } else {
                None
            }
        },
        None => None,
    }
}

/// No two rows hold one edge.
pub open spec fn edge_keys_differ(rows: Seq<Pair>) -> bool {
    forall|i: int, j: int|
        0 <= i < j < rows.len() && row_edge_key(rows[i]) is Some ==> row_edge_key(rows[i])
            != row_edge_key(rows[j])
}

/// The edges that a listing of all edges shows are picked of the rows, each
/// with the properties that the groups hold for it at the start: that the
/// listing takes a group away once it has met its edge changes nothing
/// where no two rows hold one edge.
pub proof fn lemma_swept_edges_are_picked(
    rows: Seq<Pair>,
    groups: Map<Seq<u8>, Properties>,
    active: Set<Seq<u8>>,
    to_filter: Option<Seq<u8>>,
    schema: SchemaCache,
    hydrate: bool,
)
    requires
        edge_keys_differ(rows),
    ensures
        swept_edges(rows, groups, active, to_filter, schema, hydrate).1 == picked(
            rows,
            |row: Pair| swept_edge(row, groups, active, to_filter, schema, hydrate),
        ),
        forall|name: Seq<u8>|
            (forall|i: int| 0 <= i < rows.len() ==> #[trigger] row_edge_key(rows[i]) != Some(name))
                ==> props_or_empty(
                swept_edges(rows, groups, active, to_filter, schema, hydrate).0,
                name,
            ) == #[trigger] props_or_empty(groups, name),
    decreases rows.len(),
{
    if rows.len() > 0 {
        let less = rows.drop_last();
        let last = rows.len() - 1;
        assert forall|i: int, j: int|
            0 <= i < j < less.len() && row_edge_key(less[i]) is Some implies row_edge_key(less[i])
            != row_edge_key(less[j]) by {
            assert(less[i] == rows[i] && less[j] == rows[j]);
        }
        lemma_swept_edges_are_picked(less, groups, active, to_filter, schema, hydrate);
        let before = swept_edges(less, groups, active, to_filter, schema, hydrate);
        match row_ends(rows[last]) {
            Some((from, to)) => {
                let key = join2(from, to);
                assert(row_edge_key(rows[last]) == Some(key));
                assert forall|i: int| 0 <= i < less.len() implies #[trigger] row_edge_key(less[i])
                    != Some(key) by {
                    assert(less[i] == rows[i]);
                }
                assert(props_or_empty(before.0, key) == props_or_empty(groups, key));
            },
            None => {},
        }
        assert forall|name: Seq<u8>|
            (forall|i: int| 0 <= i < rows.len() ==> #[trigger] row_edge_key(rows[i]) != Some(name))
            implies props_or_empty(
            swept_edges(rows, groups, active, to_filter, schema, hydrate).0,
            name,
        ) == #[trigger] props_or_empty(groups, name) by {
            assert forall|i: int| 0 <= i < less.len() implies #[trigger] row_edge_key(less[i])
                != Some(name) by {
                assert(less[i] == rows[i]);
            }
            assert(row_edge_key(rows[last]) != Some(name));
        }
    }
}

/// What a listing of all edges shows: an edge is among them exactly where
/// it has a row, is among the active edges, passes the filter, the
/// properties that the rows hold for it are those of an active edge, and
/// `shown` is what a reader gets of them; provided that the keys of the
/// rows are made of strings.
pub proof fn lemma_swept_edges_mean(
    edges: Map<Seq<u8>, Seq<u8>>,
    edge_data: Map<Seq<u8>, Seq<u8>>,
    active: Set<Seq<u8>>,
    to_filter: Option<Seq<u8>>,
    schema: SchemaCache,
    hydrate: bool,
    edge: ListedEdge,
)
    requires
        has_scan(edges, Seq::<u8>::empty()),
        has_scan(edge_data, Seq::<u8>::empty()),
        edges_keyed(edges),
        edge_data_keyed(edge_data),
    ensures
        swept_edges(
            all_rows(edges),
            keyed_groups(all_rows(edge_data)),
            active,
            to_filter,
            schema,
            hydrate,
        ).1.contains(edge) <==> is_text(edge.0) && is_text(edge.1) && edges.contains_key(
            join2(edge.0, edge.1),
        ) && active.contains(join2(edge.0, edge.1)) && passes(to_filter, edge.1) && active_data(
            stored_edge_properties(edge_data, edge.0, edge.1),
        ) && edge.2 == shown_edge_data(
            schema,
            stored_edge_properties(edge_data, edge.0, edge.1),
            hydrate,
        ),
{
    let rows = all_rows(edges);
    let groups = keyed_groups(all_rows(edge_data));
    let pick = |row: Pair| swept_edge(row, groups, active, to_filter, schema, hydrate);
    let from = edge.0;
    let to = edge.1;
    let wanted = is_text(from) && is_text(to) && active.contains(join2(from, to)) && passes(
        to_filter,
        to,
    ) && active_data(stored_edge_properties(edge_data, from, to)) && edge.2 == shown_edge_data(
        schema,
        stored_edge_properties(edge_data, from, to),
        hydrate,
    );
    assert forall|i: int| 0 <= i < rows.len() implies #[trigger] row_edge_key(rows[i]) == Some(
        rows[i].0,
    ) by {
        let row = rows[i].0;
        assert(edges.contains_key(row));
        let (a, b) = choose|a: Seq<u8>, b: Seq<u8>|
            is_text(a) && is_text(b) && row == #[trigger] join2(a, b);
        lemma_cut2_join2(a, b);
        lemma_decode_escape(a);
        lemma_decode_escape(b);
    }
    assert forall|i: int, j: int|
        0 <= i < j < rows.len() && row_edge_key(rows[i]) is Some implies row_edge_key(rows[i])
        != row_edge_key(rows[j]) by {
        if rows[i].0 == rows[j].0 {
            crate::text::lemma_lex_irreflexive(rows[i].0);
        }
    }
    lemma_swept_edges_are_picked(rows, groups, active, to_filter, schema, hydrate);
    lemma_picked_members(rows, pick, edge);
    assert forall|i: int| 0 <= i < rows.len() implies (#[trigger] pick(rows[i]) == Some(edge)) == (
    rows[i].0 == join2(from, to) && wanted) by {
        let row = rows[i].0;
        assert(edges.contains_key(row));
        let (a, b) = choose|a: Seq<u8>, b: Seq<u8>|
            is_text(a) && is_text(b) && row == #[trigger] join2(a, b);
        lemma_cut2_join2(a, b);
        lemma_decode_escape(a);
        lemma_decode_escape(b);
        lemma_swept_group_is_the_stored(edge_data, a, b);
        if row == join2(from, to) {
            lemma_join2_injective(a, b, from, to);
        }
    }
    if is_text(from) && is_text(to) && edges.contains_key(join2(from, to)) {
        lemma_empty_prefix(join2(from, to));
        assert(has_key(rows, join2(from, to)));
        let i = choose|i: int| 0 <= i < rows.len() && #[trigger] rows[i].0 == join2(from, to);
        assert(0 <= i < rows.len() && (pick(rows[i]) == Some(edge) <==> wanted));
    }
    if exists|i: int| 0 <= i < rows.len() && #[trigger] pick(rows[i]) == Some(edge) {
        let i = choose|i: int| 0 <= i < rows.len() && #[trigger] pick(rows[i]) == Some(edge);
        assert(edges.contains_key(rows[i].0));
    }
}

/// The properties that rows of one edge hold are the group of a fold that
/// gives every property to one group.
pub proof fn lemma_edge_properties_are_grouped(rows: Seq<Pair>, name: Seq<u8>)
    ensures
        edge_properties_of_rows(rows) == props_or_empty(
            grouped(
                rows,
                |row: Pair|
                    match row_third_property(row) {
                        Some(property) => Some((name, property)),
                        None => None,
                    },
            ),
            name,
        ),
    decreases rows.len(),
{
    if rows.len() > 0 {
        lemma_edge_properties_are_grouped(rows.drop_last(), name);
    }
}

/// What a listing by type reads as the properties of an edge: the scan of
/// the property rows under the prefix of the edge gives exactly the
/// properties that the rows hold for it, provided that the keys of the rows
/// are made of strings.
pub proof fn lemma_scanned_edge_properties_are_the_stored(
    data: Map<Seq<u8>, Seq<u8>>,
    from: Seq<u8>,
    to: Seq<u8>,
)
    requires
        has_scan(data, prefix2(from, to)),
        edge_data_keyed(data),
    ensures
        edge_properties_of_rows(prefix_rows(data, prefix2(from, to))) == stored_edge_properties(
            data,
            from,
            to,
        ),
{
    let rows = prefix_rows(data, prefix2(from, to));
    let name = Seq::<u8>::empty();
    let part = |row: Pair|
        match row_third_property(row) {
            Some(property) => Some((name, property)),
            None => None,
        };
    let place = |key: Seq<u8>| join3(from, to, key);
    lemma_edge_properties_are_grouped(rows, name);
    assert forall|i: int, key: Seq<u8>| 0 <= i < rows.len() implies #[trigger] gives(
        part,
        rows[i],
        name,
        key,
    ) == (is_text(key) && rows[i].0 == place(key)) by {
        let row = rows[i].0;
        assert(data.contains_key(row) && has_prefix(row, prefix2(from, to)));
        let (a, b, c) = choose|a: Seq<u8>, b: Seq<u8>, c: Seq<u8>|
            is_text(a) && is_text(b) && is_text(c) && row == #[trigger] join3(a, b, c);
        crate::canon::lemma_prefix2_of_join3(from, to, a, b, c);
        lemma_cut3_join3(a, b, c);
        lemma_decode_escape(c);
        if row == join3(from, to, key) {
            lemma_join3_injective(a, b, c, from, to, key);
        }
    }
    assert forall|key: Seq<u8>|
        is_text(key) && data.contains_key(#[trigger] place(key)) implies has_key(
        rows,
        place(key),
    ) by {
        crate::canon::lemma_join3_has_prefix2(from, to, key);
    }
    assert forall|i: int, j: int| 0 <= i < j < rows.len() implies rows[i].0 != rows[j].0 by {
        if rows[i].0 == rows[j].0 {
            crate::text::lemma_lex_irreflexive(rows[i].0);
        }
    }
    lemma_group_is_stored(rows, data, part, name, place);
    assert(stored_edge_properties(data, from, to) =~= Map::new(
        |key: Seq<u8>| is_text(key) && data.contains_key(place(key)),
        |key: Seq<u8>| data[place(key)],
    ));
}

/// The edges that a listing by type shows are picked of the edges that the
/// index names.
pub proof fn lemma_typed_edges_are_picked(
    edges: Map<Seq<u8>, Seq<u8>>,
    edge_data: Map<Seq<u8>, Seq<u8>>,
    active: Set<Seq<u8>>,
    from_filter: Option<Seq<u8>>,
    to_filter: Option<Seq<u8>>,
    schema: SchemaCache,
    hydrate: bool,
    named: Seq<(Seq<u8>, Seq<u8>)>,
)
    ensures
        typed_edges(edges, edge_data, active, from_filter, to_filter, schema, hydrate, named)
            == picked(
            named,
            |edge: (Seq<u8>, Seq<u8>)|
                typed_edge(edges, edge_data, active, from_filter, to_filter, schema, hydrate, edge),
        ),
    decreases named.len(),
{
    if named.len() > 0 {
        lemma_typed_edges_are_picked(
            edges,
            edge_data,
            active,
            from_filter,
            to_filter,
            schema,
            hydrate,
            named.drop_last(),
        );
    }
}

/// What a listing of the edges of a type shows: an edge is among them
/// exactly where the index names it under the type, it is among the active
/// edges, passes both filters, has a row, and `shown` is what a reader gets
/// of the properties that the rows hold for it; provided that the keys of
/// the property rows are made of strings.
pub proof fn lemma_typed_edges_mean(
    edges: Map<Seq<u8>, Seq<u8>>,
    edge_data: Map<Seq<u8>, Seq<u8>>,
    active: Set<Seq<u8>>,
    from_filter: Option<Seq<u8>>,
    to_filter: Option<Seq<u8>>,
    schema: SchemaCache,
    hydrate: bool,
    named: Seq<(Seq<u8>, Seq<u8>)>,
    edge: ListedEdge,
)
    requires
        has_scan(edge_data, prefix2(edge.0, edge.1)),
        edge_data_keyed(edge_data),
    ensures
        typed_edges(
            edges,
            edge_data,
            active,
            from_filter,
            to_filter,
            schema,
            hydrate,
            named,
        ).contains(edge) <==> named.contains((edge.0, edge.1)) && active.contains(
            join2(edge.0, edge.1),
        ) && passes(from_filter, edge.0) && passes(to_filter, edge.1) && edges.contains_key(
            join2(edge.0, edge.1),
        ) && edge.2 == shown_edge_data(
            schema,
            stored_edge_properties(edge_data, edge.0, edge.1),
            hydrate,
        ),
{
    let pick = |named_edge: (Seq<u8>, Seq<u8>)|
        typed_edge(edges, edge_data, active, from_filter, to_filter, schema, hydrate, named_edge);
    let ends = (edge.0, edge.1);
    lemma_typed_edges_are_picked(
        edges,
        edge_data,
        active,
        from_filter,
        to_filter,
        schema,
        hydrate,
        named,
    );
    lemma_picked_members(named, pick, edge);
    lemma_scanned_edge_properties_are_the_stored(edge_data, edge.0, edge.1);
    if named.contains(ends) {
        let i = choose|i: int| 0 <= i < named.len() && named[i] == ends;
        assert(0 <= i < named.len() && (pick(named[i]) == Some(edge) <==> active.contains(
            join2(edge.0, edge.1),
        ) && passes(from_filter, edge.0) && passes(to_filter, edge.1) && edges.contains_key(
            join2(edge.0, edge.1),
        ) && edge.2 == shown_edge_data(
            schema,
            stored_edge_properties(edge_data, edge.0, edge.1),
            hydrate,
        )));
    }
    if exists|i: int| 0 <= i < named.len() && #[trigger] pick(named[i]) == Some(edge) {
        let i = choose|i: int| 0 <= i < named.len() && #[trigger] pick(named[i]) == Some(edge);
        assert(named[i] == ends);
    }
}

/// The keys of the four tables are made of strings.
pub open spec fn tables_keyed(tables: Tables) -> bool {
    &&& node_data_keyed(tables.node_data)
    &&& edges_keyed(tables.edges)
    &&& edge_data_keyed(tables.edge_data)
}

/// An edge out of the node `id` as a reader of the node gets it: the edge
/// has a row, the properties that the rows hold for it are those of an
/// active edge, and `shown` is what a reader gets of them.
pub open spec fn is_stored_edge(
    tables: Tables,
    id: Seq<u8>,
    to: Seq<u8>,
    shown: Properties,
    schema: SchemaCache,
    hydrate: bool,
) -> bool {
    &&& is_text(to)
    &&& tables.edges.contains_key(join2(id, to))
    &&& active_data(stored_edge_properties(tables.edge_data, id, to))
    &&& shown == shown_edge_data(
        schema,
        stored_edge_properties(tables.edge_data, id, to),
        hydrate,
    )
}

/// What a read of one node gives: the node is found exactly where it has a
/// row and the properties that the rows hold for it are those of an active
/// node; it comes with what a reader gets of these properties, and with
/// exactly the edges out of it that have a row and properties of an active
/// edge. This holds of tables whose keys are made of strings.
pub proof fn lemma_fetched_node_means(tables: Tables, id: Seq<u8>, schema: SchemaCache, hydrate: bool)
    requires
        has_scan(tables.node_data, Seq::<u8>::empty()),
        has_scan(tables.edges, Seq::<u8>::empty()),
        has_scan(tables.edge_data, Seq::<u8>::empty()),
        tables_keyed(tables),
        is_text(id),
    ensures
        fetched_node(tables, id, schema, hydrate) is Some <==> tables.nodes.contains_key(escape(id))
            && active_data(stored_properties(tables.node_data, id)),
        match fetched_node(tables, id, schema, hydrate) {
            Some((found, node)) => {
                &&& found == id
                &&& node.data == shown_node_data(
                    schema,
                    stored_properties(tables.node_data, id),
                    hydrate,
                )
                &&& forall|to: Seq<u8>, shown: Properties| #[trigger]
                    node.edges.contains((to, shown)) <==> is_stored_edge(
                        tables,
                        id,
                        to,
                        shown,
                        schema,
                        hydrate,
                    )
            },
            None => true,
        },
{
    lemma_fetched_properties_are_the_stored(tables.node_data, id);
    let edges = own_edges(
        all_rows(tables.edges),
        id,
        own_groups(all_rows(tables.edge_data), id),
        schema,
        hydrate,
    ).1;
    assert forall|to: Seq<u8>, shown: Properties| #[trigger]
        edges.contains((to, shown)) <==> is_stored_edge(tables, id, to, shown, schema, hydrate) by {
        lemma_fetched_edges_mean(tables.edges, tables.edge_data, schema, hydrate, id, to, shown);
    }
}

/// What a listing shows of one node: the node is shown exactly where it has
/// a row, the properties that the rows hold for it are those of an active
/// node and, where a type is asked for, have that type; it comes with what
/// a reader gets of these properties, and with exactly the edges out of it
/// that a reader of the node gets and whose target is among the active
/// nodes. This holds of tables whose keys are made of strings.
pub proof fn lemma_listed_node_means(
    tables: Tables,
    active: Set<Seq<u8>>,
    id: Seq<u8>,
    kind: Option<Seq<u8>>,
    schema: SchemaCache,
    hydrate: bool,
)
    requires
        has_scan(tables.node_data, prefix1(id)),
        has_scan(tables.edges, prefix1(id)),
        has_scan(tables.edge_data, prefix1(id)),
        tables_keyed(tables),
    ensures
        listed_node(tables, active, id, kind, schema, hydrate) is Some <==> tables.nodes.contains_key(
            escape(id),
        ) && active_data(stored_properties(tables.node_data, id)) && match kind {
            Some(kind) => has_type(stored_properties(tables.node_data, id), kind),
            None => true,
        },
        match listed_node(tables, active, id, kind, schema, hydrate) {
            Some((found, node)) => {
                &&& found == id
                &&& node.data == shown_node_data(
                    schema,
                    stored_properties(tables.node_data, id),
                    hydrate,
                )
                &&& forall|to: Seq<u8>, shown: Properties| #[trigger]
                    node.edges.contains((to, shown)) <==> active.contains(to) && is_stored_edge(
                        tables,
                        id,
                        to,
                        shown,
                        schema,
                        hydrate,
                    )
            },
            None => true,
        },
{
    lemma_listed_properties_are_the_stored(tables.node_data, id);
    let edges = listed_edges(
        prefix_rows(tables.edges, prefix1(id)),
        groups_of_rows(prefix_rows(tables.edge_data, prefix1(id))),
        active,
        schema,
        hydrate,
    );
    assert forall|to: Seq<u8>, shown: Properties| #[trigger]
        edges.contains((to, shown)) <==> active.contains(to) && is_stored_edge(
            tables,
            id,
            to,
            shown,
            schema,
            hydrate,
        ) by {
        lemma_listed_edges_mean(
            tables.edges,
            tables.edge_data,
            active,
            schema,
            hydrate,
            id,
            to,
            shown,
        );
    }
}

/// The keys of the edges that the index names as active.
pub open spec fn active_edge_keys(index: Map<Seq<u8>, Seq<u8>>) -> Set<Seq<u8>> {
    edge_key_set(
        edges_of_rows(prefix_rows(index, prefix2(utf8(STATUS_KEY@), utf8(STATUS_ACTIVE@)))),
    )
}

/// What a listing of the edges shows. In every case an edge that is shown
/// has a row, is among the active edges of the index, passes both filters,
/// and comes with what a reader gets of the properties that the rows hold
/// for it. With a type, the edges shown are those of them that the index
/// names under the type. Without one, they are those of them whose stored
/// properties are those of an active edge. This holds of tables whose keys
/// are made of strings.
pub proof fn lemma_edge_listing_means(
    index: Map<Seq<u8>, Seq<u8>>,
    edges: Map<Seq<u8>, Seq<u8>>,
    edge_data: Map<Seq<u8>, Seq<u8>>,
    kind: Option<Seq<u8>>,
    from_filter: Option<Seq<u8>>,
    to_filter: Option<Seq<u8>>,
    schema: SchemaCache,
    hydrate: bool,
    edge: ListedEdge,
)
    requires
        edges_keyed(edges),
        edge_data_keyed(edge_data),
        match kind {
            Some(_) => has_scan(edge_data, prefix2(edge.0, edge.1)),
            None => match from_filter {
                Some(from) => has_scan(edges, prefix1(from)) && has_scan(edge_data, prefix1(from)),
                None => has_scan(edges, Seq::<u8>::empty()) && has_scan(
                    edge_data,
                    Seq::<u8>::empty(),
                ),
            },
        },
    ensures
        edge_listing(index, edges, edge_data, kind, from_filter, to_filter, schema, hydrate).contains(
            edge,
        ) <==> {
            &&& edges.contains_key(join2(edge.0, edge.1))
            &&& active_edge_keys(index).contains(join2(edge.0, edge.1))
            &&& passes(from_filter, edge.0)
            &&& passes(to_filter, edge.1)
            &&& edge.2 == shown_edge_data(
                schema,
                stored_edge_properties(edge_data, edge.0, edge.1),
                hydrate,
            )
            &&& match kind {
                Some(kind) => edges_of_rows(
                    prefix_rows(index, prefix2(utf8(TYPE_KEY@), kind)),
                ).contains((edge.0, edge.1)),
                None => is_text(edge.1) && (from_filter is None ==> is_text(edge.0)) && active_data(
                    stored_edge_properties(edge_data, edge.0, edge.1),
                ),
            }
        },
{
    let active = active_edge_keys(index);
    match kind {
        Some(kind) => {
            lemma_typed_edges_mean(
                edges,
                edge_data,
                active,
                from_filter,
                to_filter,
                schema,
                hydrate,
                edges_of_rows(prefix_rows(index, prefix2(utf8(TYPE_KEY@), kind))),
                edge,
            );
        },
        None => match from_filter {
            Some(from) => {
                lemma_source_edges_mean(
                    edges,
                    edge_data,
                    active,
                    to_filter,
                    schema,
                    hydrate,
                    from,
                    edge,
                );
            },
            None => {
                lemma_swept_edges_mean(edges, edge_data, active, to_filter, schema, hydrate, edge);
            },
        },
    }
}

/// The nodes that a listing shows for a list of ids are picked of the ids.
pub proof fn lemma_listed_nodes_are_picked(
    tables: Tables,
    active: Set<Seq<u8>>,
    ids: Seq<Seq<u8>>,
    kind: Option<Seq<u8>>,
    schema: SchemaCache,
    hydrate: bool,
)
    ensures
        listed_nodes(tables, active, ids, kind, schema, hydrate) == picked(
            ids,
            |id: Seq<u8>| listed_node(tables, active, id, kind, schema, hydrate),
        ),
    decreases ids.len(),
{
    if ids.len() > 0 {
        lemma_listed_nodes_are_picked(tables, active, ids.drop_last(), kind, schema, hydrate);
    }
}

/// What a listing shows for a list of ids: a node is among them exactly
/// where its id is in the list and the listing shows that node so.
pub proof fn lemma_listed_nodes_mean(
    tables: Tables,
    active: Set<Seq<u8>>,
    ids: Seq<Seq<u8>>,
    kind: Option<Seq<u8>>,
    schema: SchemaCache,
    hydrate: bool,
    node: (Seq<u8>, NodeModel),
)
    ensures
        listed_nodes(tables, active, ids, kind, schema, hydrate).contains(node) <==> ids.contains(
            node.0,
        ) && listed_node(tables, active, node.0, kind, schema, hydrate) == Some(node),
{
    let pick = |id: Seq<u8>| listed_node(tables, active, id, kind, schema, hydrate);
    lemma_listed_nodes_are_picked(tables, active, ids, kind, schema, hydrate);
    lemma_picked_members(ids, pick, node);
    if ids.contains(node.0) && pick(node.0) == Some(node) {
        let i = choose|i: int| 0 <= i < ids.len() && ids[i] == node.0;
        assert(0 <= i < ids.len() && pick(ids[i]) == Some(node));
    }
    if exists|i: int| 0 <= i < ids.len() && #[trigger] pick(ids[i]) == Some(node) {
        let i = choose|i: int| 0 <= i < ids.len() && #[trigger] pick(ids[i]) == Some(node);
        assert(ids[i] == node.0);
    }
}

} // verus!
