use vstd::prelude::*;
use crate::text::{utf8, strings_utf8, str_eq, str_lt, lex_lt};
use crate::codec::{escape, decode};
use crate::keys::{cut2, cut3, join2, prefix1, prefix2, split_two, split_three, edge_from_prefix, edge_key};
use crate::props::{PropertyMap, Pair};
use crate::graph::{Properties, EdgeModel, NodeModel};
use crate::groups::{Groups, props_or_empty, with_property};
use crate::order::{sort_by_id, cut_to, lemma_insert_by_id_at};
use crate::idset::IdSet;
use crate::lru::{LruCache, holds_decodings, decode_component_cached};
use crate::schema::{SchemaCache, active_data, is_active_data, STATUS_KEY, STATUS_ACTIVE, TYPE_KEY};
use crate::store::{Snapshot, snapshot_rows, prefix_rows, scan_rows, row_ahead, row_bytes};
use crate::reads::{has_node_row, has_edge_row, ids_of_rows, edges_of_rows, properties_of_rows, edge_properties_of_rows, groups_of_rows, string_pairs, node_ids_by_index, node_ids_by_geo_prefix, edge_ids_by_index, load_node_data_for_id, load_edge_data_for_from, load_edge_data_for_edge};

verus! {

/// An edge as a reader gets it: its target and its properties.
#[derive(Debug)]
pub struct EdgeView {
    pub to: String,
    pub data: PropertyMap,
}

/// A node as a reader gets it: its id, its properties and its edges.
#[derive(Debug)]
pub struct NodeView {
    pub id: String,
    pub data: PropertyMap,
    pub edges: Vec<EdgeView>,
}

impl EdgeView {
    /// The edge as contracts see it.
    pub open spec fn model(&self) -> EdgeModel {
        (utf8(self.to@), self.data@)
    }
}

/// The edges of a list, as contracts see them.
pub open spec fn edge_view_models(edges: Seq<EdgeView>) -> Seq<EdgeModel> {
    edges.map_values(|edge: EdgeView| edge.model())
}

impl NodeView {
    /// The node as contracts see it: its id and what it holds.
    pub open spec fn model(&self) -> (Seq<u8>, NodeModel) {
        (utf8(self.id@), NodeModel { edges: edge_view_models(self.edges@), data: self.data@ })
    }
}

/// The nodes of a list, as contracts see them.
pub open spec fn node_view_models(nodes: Seq<NodeView>) -> Seq<(Seq<u8>, NodeModel)> {
    nodes.map_values(|node: NodeView| node.model())
}

/// The rows of the four tables that hold the nodes, the edges and their
/// properties.
pub struct Tables {
    pub nodes: Map<Seq<u8>, Seq<u8>>,
    pub node_data: Map<Seq<u8>, Seq<u8>>,
    pub edges: Map<Seq<u8>, Seq<u8>>,
    pub edge_data: Map<Seq<u8>, Seq<u8>>,
}

/// The rows of four snapshots.
pub open spec fn tables_of(
    nodes: &Snapshot,
    node_data: &Snapshot,
    edges: &Snapshot,
    edge_data: &Snapshot,
) -> Tables {
    Tables {
        nodes: snapshot_rows(nodes),
        node_data: snapshot_rows(node_data),
        edges: snapshot_rows(edges),
        edge_data: snapshot_rows(edge_data),
    }
}

/// The properties as a reader gets them: all of them where the reader asks
/// for the stored properties, else the part that is kept in memory.
pub open spec fn shown_node_data(schema: SchemaCache, data: Properties, hydrate: bool) -> Properties {
    if hydrate {
        data
    } else {
        schema.node_part(data)
    }
}

/// The properties of an edge as a reader gets them.
pub open spec fn shown_edge_data(schema: SchemaCache, data: Properties, hydrate: bool) -> Properties {
    if hydrate {
        data
    } else {
        schema.edge_part(data)
    }
}

/// The properties have `kind` under the key `type`.
pub open spec fn has_type(data: Properties, kind: Seq<u8>) -> bool {
    data.contains_key(utf8(TYPE_KEY@)) && data[utf8(TYPE_KEY@)] == kind
}

/// Whether the properties have `kind` under the key `type`.
pub fn data_has_type(data: &PropertyMap, kind: &str) -> (r: bool)
    ensures
        r == has_type(data@, utf8(kind@)),
{
    match data.get(TYPE_KEY) {
        Some(value) => str_eq(value.as_str(), kind),
        None => false,
    }
}

/// The edge that a row of the edge table gives in a listing of the edges of
/// one node: its target is active, and its properties are those of an
/// active edge.
pub open spec fn listed_edge(
    row: Pair,
    groups: Map<Seq<u8>, Properties>,
    active: Set<Seq<u8>>,
    schema: SchemaCache,
    hydrate: bool,
) -> Option<EdgeModel> {
    match cut2(row.0) {
        Some((_, encoded)) => match decode(encoded) {
            Some(to) => {
                let data = props_or_empty(groups, to);
                if active.contains(to) && active_data(data) {
                    Some((to, shown_edge_data(schema, data, hydrate)))
                } else {
                    None
                }
            },
            None => None,
        },
        None => None,
    }
}

/// The edges that the rows of the edge table give, in the order of the
/// rows.
pub open spec fn listed_edges(
    rows: Seq<Pair>,
    groups: Map<Seq<u8>, Properties>,
    active: Set<Seq<u8>>,
    schema: SchemaCache,
    hydrate: bool,
) -> Seq<EdgeModel>
    decreases rows.len(),
{
    if rows.len() == 0 {
        Seq::empty()
    } else {
        let before = listed_edges(rows.drop_last(), groups, active, schema, hydrate);
        match listed_edge(rows.last(), groups, active, schema, hydrate) {
            Some(edge) => before.push(edge),
            None => before,
        }
    }
}

/// The node `id` as a listing shows it, if it shows it: the node has a row,
/// its properties are those of an active node and, where a type is asked
/// for, have that type.
pub open spec fn listed_node(
    tables: Tables,
    active: Set<Seq<u8>>,
    id: Seq<u8>,
    kind: Option<Seq<u8>>,
    schema: SchemaCache,
    hydrate: bool,
) -> Option<(Seq<u8>, NodeModel)> {
    let data = properties_of_rows(prefix_rows(tables.node_data, prefix1(id)));
    let typed = match kind {
        Some(kind) => has_type(data, kind),
        None => true,
    };
    if tables.nodes.contains_key(escape(id)) && active_data(data) && typed {
        Some(
            (
                id,
                NodeModel {
                    edges: listed_edges(
                        prefix_rows(tables.edges, prefix1(id)),
                        groups_of_rows(prefix_rows(tables.edge_data, prefix1(id))),
                        active,
                        schema,
                        hydrate,
                    ),
                    data: shown_node_data(schema, data, hydrate),
                },
            ),
        )
    } else {
        None
    }
}

/// The nodes that a listing shows for the ids, in the order of the ids.
pub open spec fn listed_nodes(
    tables: Tables,
    active: Set<Seq<u8>>,
    ids: Seq<Seq<u8>>,
    kind: Option<Seq<u8>>,
    schema: SchemaCache,
    hydrate: bool,
) -> Seq<(Seq<u8>, NodeModel)>
    decreases ids.len(),
{
    if ids.len() == 0 {
        Seq::empty()
    } else {
        let before = listed_nodes(tables, active, ids.drop_last(), kind, schema, hydrate);
        match listed_node(tables, active, ids.last(), kind, schema, hydrate) {
            Some(node) => before.push(node),
            None => before,
        }
    }
}

/// The ids of a list that are in a set, in their order.
pub open spec fn ids_in(ids: Seq<Seq<u8>>, set: Set<Seq<u8>>) -> Seq<Seq<u8>>
    decreases ids.len(),
{
    if ids.len() == 0 {
        Seq::empty()
    } else {
        let before = ids_in(ids.drop_last(), set);
        if set.contains(ids.last()) {
            before.push(ids.last())
        } else {
            before
        }
    }
}

/// None of the ids of a list is in the empty set.
pub proof fn lemma_ids_in_nothing(ids: Seq<Seq<u8>>, set: Set<Seq<u8>>)
    requires
        forall|id: Seq<u8>| !set.contains(id),
    ensures
        ids_in(ids, set) == Seq::<Seq<u8>>::empty(),
    decreases ids.len(),
{
    if ids.len() > 0 {
        lemma_ids_in_nothing(ids.drop_last(), set);
    }
}

/// The set of the items of a list.
pub open spec fn set_of(ids: Seq<Seq<u8>>) -> Set<Seq<u8>> {
    Set::new(|id: Seq<u8>| ids.contains(id))
}

/// The strings of a list that are in a set, in their order.
pub fn keep_ids_in(ids: Vec<String>, set: &IdSet) -> (kept: Vec<String>)
    ensures
        strings_utf8(kept@) == ids_in(strings_utf8(ids@), set@),
{
    let ghost all = strings_utf8(ids@);
    let mut kept: Vec<String> = Vec::new();
    let mut i: usize = 0;
    proof {
        assert(all.take(0) =~= Seq::<Seq<u8>>::empty());
        assert(strings_utf8(kept@) =~= Seq::<Seq<u8>>::empty());
    }
    while i < ids.len()
        invariant
            0 <= i <= ids.len(),
            all == strings_utf8(ids@),
            strings_utf8(kept@) == ids_in(all.take(i as int), set@),
        decreases ids.len() - i,
    {
        proof {
            assert(all.take(i + 1).drop_last() =~= all.take(i as int));
            assert(all.take(i + 1).last() == all[i as int]);
        }
        let ghost before = strings_utf8(kept@);
        if set.contains(ids[i].as_str()) {
            kept.push(ids[i].clone());
            proof {
                assert(strings_utf8(kept@) =~= before.push(all[i as int]));
            }
        }
        i += 1;
    }
    proof {
        assert(all.take(i as int) =~= all);
    }
    kept
}

/// Adds to `views` the edge that a row of the edge table gives in a listing
/// of the edges of one node; a row that gives none is passed over.
pub fn add_listed_edge(
    row: &(String, String),
    groups: &Groups,
    active: &IdSet,
    schema: &SchemaCache,
    hydrate: bool,
    cache: &mut LruCache,
    views: &mut Vec<EdgeView>,
)
    ensures
        holds_decodings(old(cache).pairs()) ==> holds_decodings(final(cache).pairs()),
        holds_decodings(old(cache).pairs()) ==> edge_view_models(final(views)@) == match listed_edge(
            row_bytes(*row),
            groups@,
            active@,
            *schema,
            hydrate,
        ) {
            Some(edge) => edge_view_models(old(views)@).push(edge),
            None => edge_view_models(old(views)@),
        },
{
    let ghost before = edge_view_models(views@);
    if let Some((_, encoded)) = split_two(row.0.as_str()) {
        if let Some(to) = decode_component_cached(encoded, cache) {
            if active.contains(to.as_str()) {
                let data = groups.get_or_empty(to.as_str());
                if is_active_data(&data) {
                    let data = if hydrate {
                        data
                    } else {
                        schema.filter_edge_data(&data)
                    };
                    let view = EdgeView { to, data };
                    views.push(view);
                    proof {
                        assert(edge_view_models(views@) =~= before.push(view.model()));
                    }
                }
            }
        }
    }
}

/// The edges of a node as a listing shows them.
fn list_edges_of(
    edges: &Snapshot,
    groups: &Groups,
    active: &IdSet,
    node_id: &str,
    schema: &SchemaCache,
    hydrate: bool,
    cache: &mut LruCache,
) -> (r: Result<Vec<EdgeView>, redb::Error>)
    requires
        holds_decodings(old(cache).pairs()),
    ensures
        holds_decodings(final(cache).pairs()),
        r matches Ok(views) ==> edge_view_models(views@) == listed_edges(
            prefix_rows(snapshot_rows(edges), prefix1(utf8(node_id@))),
            groups@,
            active@,
            *schema,
            hydrate,
        ),
{
    let prefix = edge_from_prefix(node_id);
    let mut scan = scan_rows(edges, prefix.as_str())?;
    let ghost pairs = scan.rest();
    let mut views: Vec<EdgeView> = Vec::new();
    let ghost mut i: int = 0;
    let mut row = scan.next()?;
    proof {
        if pairs.len() > 0 {
            assert(pairs.drop_first() =~= pairs.skip(1));
        }
        assert(pairs.take(0) =~= Seq::<Pair>::empty());
        assert(edge_view_models(views@) =~= Seq::<EdgeModel>::empty());
    }
    while row.is_some()
        invariant
            0 <= i <= pairs.len(),
            row_ahead(row, scan.rest(), pairs, i),
            holds_decodings(cache.pairs()),
            edge_view_models(views@) == listed_edges(
                pairs.take(i),
                groups@,
                active@,
                *schema,
                hydrate,
            ),
        decreases pairs.len() - i,
    {
        proof {
            assert(pairs.take(i + 1).drop_last() =~= pairs.take(i));
            assert(pairs.take(i + 1).last() == pairs[i]);
        }
        let found = row.unwrap();
        add_listed_edge(&found, groups, active, schema, hydrate, cache, &mut views);
        proof {
            i = i + 1;
        }
        row = scan.next()?;
        proof {
            if i < pairs.len() {
                assert(pairs.skip(i).drop_first() =~= pairs.skip(i + 1));
            }
        }
    }
    proof {
        assert(pairs.take(i) =~= pairs);
    }
    Ok(views)
}

/// The properties that a listing shows for a node with the stored
/// properties `data`: none unless they are those of an active node and,
/// where a type is asked for, have that type; else all of them where the
/// reader asks for the stored properties, and the part that is kept in
/// memory where not.
pub fn shown_if_listed(
    data: PropertyMap,
    kind: Option<&str>,
    schema: &SchemaCache,
    hydrate: bool,
) -> (r: Option<PropertyMap>)
    ensures
        match r {
            Some(shown) => shown@ == shown_node_data(*schema, data@, hydrate),
            None => true,
        },
        r is Some <==> active_data(data@) && match kind {
            Some(kind) => has_type(data@, utf8(kind@)),
            None => true,
        },
{
    if !is_active_data(&data) {
        return None;
    }
    if let Some(kind) = kind {
        if !data_has_type(&data, kind) {
            return None;
        }
    }
    if hydrate {
        Some(data)
    } else {
        Some(schema.filter_node_data(&data))
    }
}

/// The node `node_id` as a listing shows it, if it shows it.
fn list_node(
    nodes: &Snapshot,
    node_data: &Snapshot,
    edges: &Snapshot,
    edge_data: &Snapshot,
    active: &IdSet,
    node_id: &str,
    kind: Option<&str>,
    schema: &SchemaCache,
    hydrate: bool,
    cache: &mut LruCache,
) -> (r: Result<Option<NodeView>, redb::Error>)
    requires
        holds_decodings(old(cache).pairs()),
    ensures
        holds_decodings(final(cache).pairs()),
        r matches Ok(found) ==> match found {
            Some(view) => Some(view.model()),
            None => None,
        } == listed_node(
            tables_of(nodes, node_data, edges, edge_data),
            active@,
            utf8(node_id@),
            match kind {
                Some(kind) => Some(utf8(kind@)),
                None => None,
            },
            *schema,
            hydrate,
        ),
{
    if !has_node_row(nodes, node_id)? {
        return Ok(None);
    }
    let data = load_node_data_for_id(node_data, node_id)?;
    let shown = match shown_if_listed(data, kind, schema, hydrate) {
        Some(shown) => shown,
        None => {
            return Ok(None);
        },
    };
    let groups = load_edge_data_for_from(edge_data, node_id)?;
    let views = list_edges_of(edges, &groups, active, node_id, schema, hydrate, cache)?;
    Ok(Some(NodeView { id: node_id.to_owned(), data: shown, edges: views }))
}

/// The nodes that a listing shows for the ids, in the order of the ids.
/// With no ids nothing is read, and the result is the empty list.
pub fn list_nodes_of(
    nodes: &Snapshot,
    node_data: &Snapshot,
    edges: &Snapshot,
    edge_data: &Snapshot,
    active: &IdSet,
    ids: &Vec<String>,
    kind: Option<&str>,
    schema: &SchemaCache,
    hydrate: bool,
) -> (r: Result<Vec<NodeView>, redb::Error>)
    ensures
        r matches Ok(views) ==> node_view_models(views@) == listed_nodes(
            tables_of(nodes, node_data, edges, edge_data),
            active@,
            strings_utf8(ids@),
            match kind {
                Some(kind) => Some(utf8(kind@)),
                None => None,
            },
            *schema,
            hydrate,
        ),
        ids@.len() == 0 ==> r is Ok,
{
    let ghost all = strings_utf8(ids@);
    let ghost tables = tables_of(nodes, node_data, edges, edge_data);
    let ghost wanted = match kind {
        Some(kind) => Some(utf8(kind@)),
        None => None,
    };
    let mut cache = LruCache::new(4096);
    let mut views: Vec<NodeView> = Vec::new();
    let mut i: usize = 0;
    proof {
        assert(all.take(0) =~= Seq::<Seq<u8>>::empty());
        assert(node_view_models(views@) =~= Seq::<(Seq<u8>, NodeModel)>::empty());
    }
    while i < ids.len()
        invariant
            0 <= i <= ids.len(),
            all == strings_utf8(ids@),
            tables == tables_of(nodes, node_data, edges, edge_data),
            wanted == match kind {
                Some(kind) => Some(utf8(kind@)),
                None => None,
            },
            holds_decodings(cache.pairs()),
            node_view_models(views@) == listed_nodes(
                tables,
                active@,
                all.take(i as int),
                wanted,
                *schema,
                hydrate,
            ),
        decreases ids.len() - i,
    {
        proof {
            assert(all.take(i + 1).drop_last() =~= all.take(i as int));
            assert(all.take(i + 1).last() == all[i as int]);
        }
        let ghost before = node_view_models(views@);
        let found = list_node(
            nodes,
            node_data,
            edges,
            edge_data,
            active,
            ids[i].as_str(),
            kind,
            schema,
            hydrate,
            &mut cache,
        )?;
        if let Some(view) = found {
            views.push(view);
            proof {
                assert(node_view_models(views@) =~= before.push(view.model()));
            }
        }
        i += 1;
    }
    proof {
        assert(all.take(i as int) =~= all);
    }
    Ok(views)
}

/// What a listing of the nodes shows: each active node that the node index
/// names, in the order of the index; with a type, each active node that the
/// index names under it.
pub open spec fn node_listing(
    index: Map<Seq<u8>, Seq<u8>>,
    tables: Tables,
    kind: Option<Seq<u8>>,
    schema: SchemaCache,
    hydrate: bool,
) -> Seq<(Seq<u8>, NodeModel)> {
    let active_ids = ids_of_rows(
        prefix_rows(index, prefix2(utf8(STATUS_KEY@), utf8(STATUS_ACTIVE@))),
    );
    let ids = match kind {
        Some(kind) => ids_in(
            ids_of_rows(prefix_rows(index, prefix2(utf8(TYPE_KEY@), kind))),
            set_of(active_ids),
        ),
        None => active_ids,
    };
    listed_nodes(tables, set_of(active_ids), ids, kind, schema, hydrate)
}

/// Lists the active nodes, all of them or those of one type, from the
/// tables of one snapshot. Where the index names no active node, nothing
/// more is read.
pub fn list_nodes_in(
    node_index: &Snapshot,
    nodes: &Snapshot,
    node_data: &Snapshot,
    edges: &Snapshot,
    edge_data: &Snapshot,
    kind: Option<&str>,
    schema: &SchemaCache,
    hydrate: bool,
) -> (r: Result<Vec<NodeView>, redb::Error>)
    ensures
        r matches Ok(views) ==> node_view_models(views@) == node_listing(
            snapshot_rows(node_index),
            tables_of(nodes, node_data, edges, edge_data),
            match kind {
                Some(kind) => Some(utf8(kind@)),
                None => None,
            },
            *schema,
            hydrate,
        ),
{
    let active_ids = node_ids_by_index(node_index, STATUS_KEY, STATUS_ACTIVE)?;
    if active_ids.len() == 0 {
        let views: Vec<NodeView> = Vec::new();
        proof {
            let none = strings_utf8(active_ids@);
            assert(none =~= Seq::<Seq<u8>>::empty());
            if let Some(kind) = kind {
                lemma_ids_in_nothing(
                    ids_of_rows(
                        prefix_rows(
                            snapshot_rows(node_index),
                            prefix2(utf8(TYPE_KEY@), utf8(kind@)),
                        ),
                    ),
                    set_of(none),
                );
            }
            assert(node_view_models(views@) =~= Seq::<(Seq<u8>, NodeModel)>::empty());
        }
        return Ok(views);
    }
    let active = IdSet::from_list(&active_ids);
    proof {
        assert(active@ =~= set_of(strings_utf8(active_ids@)));
    }
    let ids = match kind {
        Some(kind) => {
            let typed = node_ids_by_index(node_index, TYPE_KEY, kind)?;
            keep_ids_in(typed, &active)
        },
        None => active_ids,
    };
    list_nodes_of(nodes, node_data, edges, edge_data, &active, &ids, kind, schema, hydrate)
}

/// The nodes in ascending order of their ids; nodes with one id keep their
/// order.
pub fn sort_nodes_by_id(nodes: Vec<NodeView>) -> (sorted: Vec<NodeView>)
    ensures
        node_view_models(sorted@) == sort_by_id(node_view_models(nodes@)),
{
    let ghost all = node_view_models(nodes@);
    let mut rest = nodes;
    let mut sorted: Vec<NodeView> = Vec::new();
    proof {
        assert(all.skip(all.len() as int) =~= Seq::<(Seq<u8>, NodeModel)>::empty());
        assert(node_view_models(sorted@) =~= Seq::<(Seq<u8>, NodeModel)>::empty());
    }
    while rest.len() > 0
        invariant
            rest@.len() <= all.len(),
            node_view_models(rest@) == all.take(rest@.len() as int),
            node_view_models(sorted@) == sort_by_id(all.skip(rest@.len() as int)),
        decreases rest.len(),
    {
        let ghost left = rest@.len() as int;
        let node = rest.pop().unwrap();
        let ghost done = node_view_models(sorted@);
        proof {
            assert(node.model() == all.take(left)[left - 1]);
            assert(all.skip(left - 1)[0] == node.model());
            assert(all.skip(left - 1).drop_first() =~= all.skip(left));
            assert(node_view_models(rest@) =~= all.take(left - 1));
        }
        let mut p: usize = 0;
        while p < sorted.len() && str_lt(sorted[p].id.as_str(), node.id.as_str())
            invariant
                0 <= p <= sorted.len(),
                done == node_view_models(sorted@),
                forall|j: int| 0 <= j < p ==> lex_lt(done[j].0, utf8(node.id@)),
            decreases sorted.len() - p,
        {
            p += 1;
        }
        proof {
            lemma_insert_by_id_at(node.model(), done, p as int);
        }
        sorted.insert(p, node);
        proof {
            assert(node_view_models(sorted@) =~= done.insert(p as int, node.model()));
        }
    }
    proof {
        assert(all.skip(0) =~= all);
    }
    sorted
}

/// What a search by geohash prefix shows: the active nodes of the type that
/// the geo index names under values with the prefix, in ascending order of
/// their ids, cut to the limit.
pub open spec fn geo_listing(
    geo: Map<Seq<u8>, Seq<u8>>,
    index: Map<Seq<u8>, Seq<u8>>,
    tables: Tables,
    kind: Seq<u8>,
    geo_key: Seq<u8>,
    geo_prefix: Seq<u8>,
    limit: Option<usize>,
    schema: SchemaCache,
    hydrate: bool,
) -> Seq<(Seq<u8>, NodeModel)> {
    let active = set_of(
        ids_of_rows(prefix_rows(index, prefix2(utf8(STATUS_KEY@), utf8(STATUS_ACTIVE@)))),
    );
    let ids = ids_in(ids_of_rows(prefix_rows(geo, join2(geo_key, geo_prefix))), active);
    cut_to(sort_by_id(listed_nodes(tables, active, ids, Some(kind), schema, hydrate)), limit)
}

/// The nodes in ascending order of their ids, cut to the limit where there
/// is one.
pub fn sorted_and_cut(views: Vec<NodeView>, limit: Option<usize>) -> (sorted: Vec<NodeView>)
    ensures
        node_view_models(sorted@) == cut_to(sort_by_id(node_view_models(views@)), limit),
{
    let mut sorted = sort_nodes_by_id(views);
    if let Some(limit) = limit {
        let ghost whole = node_view_models(sorted@);
        sorted.truncate(limit);
        proof {
            assert(node_view_models(sorted@) =~= cut_to(whole, Some(limit)));
        }
    }
    sorted
}

/// Lists the active nodes of a type whose value under `geo_key` starts with
/// `geo_prefix`, from the tables of one snapshot. Where the geo index names
/// no node, or the node index no active one, nothing more is read.
pub fn list_nodes_by_geo_prefix_in(
    geo_index: &Snapshot,
    node_index: &Snapshot,
    nodes: &Snapshot,
    node_data: &Snapshot,
    edges: &Snapshot,
    edge_data: &Snapshot,
    kind: &str,
    geo_key: &str,
    geo_prefix: &str,
    limit: Option<usize>,
    schema: &SchemaCache,
    hydrate: bool,
) -> (r: Result<Vec<NodeView>, redb::Error>)
    ensures
        r matches Ok(views) ==> node_view_models(views@) == geo_listing(
            snapshot_rows(geo_index),
            snapshot_rows(node_index),
            tables_of(nodes, node_data, edges, edge_data),
            utf8(kind@),
            utf8(geo_key@),
            utf8(geo_prefix@),
            limit,
            *schema,
            hydrate,
        ),
{
    let found = node_ids_by_geo_prefix(geo_index, geo_key, geo_prefix)?;
    if found.len() == 0 {
        let views: Vec<NodeView> = Vec::new();
        proof {
            assert(strings_utf8(found@) =~= Seq::<Seq<u8>>::empty());
            assert(node_view_models(views@) =~= Seq::<(Seq<u8>, NodeModel)>::empty());
        }
        return Ok(views);
    }
    let active_ids = node_ids_by_index(node_index, STATUS_KEY, STATUS_ACTIVE)?;
    if active_ids.len() == 0 {
        let views: Vec<NodeView> = Vec::new();
        proof {
            let none = strings_utf8(active_ids@);
            assert(none =~= Seq::<Seq<u8>>::empty());
            lemma_ids_in_nothing(strings_utf8(found@), set_of(none));
            assert(node_view_models(views@) =~= Seq::<(Seq<u8>, NodeModel)>::empty());
        }
        return Ok(views);
    }
    let active = IdSet::from_list(&active_ids);
    proof {
        assert(active@ =~= set_of(strings_utf8(active_ids@)));
    }
    let ids = keep_ids_in(found, &active);
    let views = list_nodes_of(
        nodes,
        node_data,
        edges,
        edge_data,
        &active,
        &ids,
        Some(kind),
        schema,
        hydrate,
    )?;
    Ok(sorted_and_cut(views, limit))
}

/// The property that a property row gives to the node `id`: the first
/// component of its key decodes to `id`, the second to the key of the
/// property.
pub open spec fn row_own_property(row: Pair, id: Seq<u8>) -> Option<Pair> {
    match cut2(row.0) {
        Some((owner, key)) => if decode(owner) == Some(id) {
            match decode(key) {
                Some(key) => Some((key, row.1)),
                None => None,
            }
        } else {
            None
        },
        None => None,
    }
}

/// The properties that the rows give to the node `id`; a later row wins.
pub open spec fn own_properties(rows: Seq<Pair>, id: Seq<u8>) -> Properties
    decreases rows.len(),
{
    if rows.len() == 0 {
        Map::empty()
    } else {
        let before = own_properties(rows.drop_last(), id);
        match row_own_property(rows.last(), id) {
            Some(property) => before.insert(property.0, property.1),
            None => before,
        }
    }
}

/// The target and property that a property row gives to an edge out of the
/// node `id`.
pub open spec fn row_own_edge_property(row: Pair, id: Seq<u8>) -> Option<(Seq<u8>, Pair)> {
    match cut3(row.0) {
        Some((from, to, key)) => if decode(from) == Some(id) {
            match (decode(to), decode(key)) {
                (Some(to), Some(key)) => Some((to, (key, row.1))),
                _ => None,
            }
        } else {
            None
        },
        None => None,
    }
}

/// The properties that the rows give to the edges out of the node `id`,
/// under the target of each edge.
pub open spec fn own_groups(rows: Seq<Pair>, id: Seq<u8>) -> Map<Seq<u8>, Properties>
    decreases rows.len(),
{
    if rows.len() == 0 {
        Map::empty()
    } else {
        let before = own_groups(rows.drop_last(), id);
        match row_own_edge_property(rows.last(), id) {
            Some((to, property)) => with_property(before, to, property.0, property.1),
            None => before,
        }
    }
}

/// The target of the edge out of the node `id` that a row of the edge table
/// holds.
pub open spec fn row_own_target(row: Pair, id: Seq<u8>) -> Option<Seq<u8>> {
    match cut2(row.0) {
        Some((from, to)) => if decode(from) == Some(id) {
            decode(to)
        } else {
            None
        },
        None => None,
    }
}

/// The edges out of the node `id` that the rows of the edge table give, in
/// the order of the rows, and the groups of properties that are left: each
/// edge takes the group of its target, and is shown where the properties
/// are those of an active edge.
pub open spec fn own_edges(
    rows: Seq<Pair>,
    id: Seq<u8>,
    groups: Map<Seq<u8>, Properties>,
    schema: SchemaCache,
    hydrate: bool,
) -> (Map<Seq<u8>, Properties>, Seq<EdgeModel>)
    decreases rows.len(),
{
    if rows.len() == 0 {
        (groups, Seq::empty())
    } else {
        let before = own_edges(rows.drop_last(), id, groups, schema, hydrate);
        match row_own_target(rows.last(), id) {
            Some(to) => {
                let data = props_or_empty(before.0, to);
                if active_data(data) {
                    (
                        before.0.remove(to),
                        before.1.push((to, shown_edge_data(schema, data, hydrate))),
                    )
                } else {
                    (before.0.remove(to), before.1)
                }
            },
            None => before,
        }
    }
}

/// All rows of a table, in ascending order of their keys.
pub open spec fn all_rows(table: Map<Seq<u8>, Seq<u8>>) -> Seq<Pair> {
    prefix_rows(table, Seq::empty())
}

/// The node `id` as a reader gets it, if it is there: the node has a row
/// and its properties are those of an active node.
pub open spec fn fetched_node(tables: Tables, id: Seq<u8>, schema: SchemaCache, hydrate: bool) -> Option<
    (Seq<u8>, NodeModel),
> {
    let data = own_properties(all_rows(tables.node_data), id);
    if tables.nodes.contains_key(escape(id)) && active_data(data) {
        Some(
            (
                id,
                NodeModel {
                    edges: own_edges(
                        all_rows(tables.edges),
                        id,
                        own_groups(all_rows(tables.edge_data), id),
                        schema,
                        hydrate,
                    ).1,
                    data: shown_node_data(schema, data, hydrate),
                },
            ),
        )
    } else {
        None
    }
}

/// Puts into `data` the property that a property row gives to the node; a
/// row that gives it none is passed over.
pub fn add_own_property(
    row: (String, String),
    node_id: &str,
    cache: &mut LruCache,
    data: &mut PropertyMap,
)
    ensures
        holds_decodings(old(cache).pairs()) ==> holds_decodings(final(cache).pairs()),
        holds_decodings(old(cache).pairs()) ==> final(data)@ == match row_own_property(
            row_bytes(row),
            utf8(node_id@),
        ) {
            Some(property) => old(data)@.insert(property.0, property.1),
            None => old(data)@,
        },
{
    let (row_key, row_value) = row;
    if let Some((owner, key)) = split_two(row_key.as_str()) {
        if let Some(owner) = decode_component_cached(owner, cache) {
            if str_eq(owner.as_str(), node_id) {
                if let Some(key) = decode_component_cached(key, cache) {
                    data.insert(key, row_value);
                }
            }
        }
    }
}

/// Puts into `groups` the property that a property row gives to an edge
/// out of the node, under the target of the edge; a row that gives none is
/// passed over.
pub fn add_own_group(
    row: (String, String),
    node_id: &str,
    cache: &mut LruCache,
    groups: &mut Groups,
)
    ensures
        holds_decodings(old(cache).pairs()) ==> holds_decodings(final(cache).pairs()),
        holds_decodings(old(cache).pairs()) ==> final(groups)@ == match row_own_edge_property(
            row_bytes(row),
            utf8(node_id@),
        ) {
            Some((to, property)) => with_property(old(groups)@, to, property.0, property.1),
            None => old(groups)@,
        },
{
    let (row_key, row_value) = row;
    if let Some((from, to, key)) = split_three(row_key.as_str()) {
        if let Some(from) = decode_component_cached(from, cache) {
            if str_eq(from.as_str(), node_id) {
                if let Some(to) = decode_component_cached(to, cache) {
                    if let Some(key) = decode_component_cached(key, cache) {
                        groups.add(to.as_str(), key, row_value);
                    }
                }
            }
        }
    }
}

/// Takes the edge out of the node that a row of the edge table holds: the
/// group of its target leaves `groups`, and the edge is added to `views`
/// where the group holds the properties of an active edge. A row that
/// holds no edge out of the node is passed over.
pub fn add_own_edge(
    row: &(String, String),
    node_id: &str,
    schema: &SchemaCache,
    hydrate: bool,
    cache: &mut LruCache,
    groups: &mut Groups,
    views: &mut Vec<EdgeView>,
)
    ensures
        holds_decodings(old(cache).pairs()) ==> holds_decodings(final(cache).pairs()),
        holds_decodings(old(cache).pairs()) ==> (final(groups)@, edge_view_models(final(views)@))
            == match row_own_target(row_bytes(*row), utf8(node_id@)) {
            Some(to) => {
                let data = props_or_empty(old(groups)@, to);
                if active_data(data) {
                    (
                        old(groups)@.remove(to),
                        edge_view_models(old(views)@).push(
                            (to, shown_edge_data(*schema, data, hydrate)),
                        ),
                    )
                } else {
                    (old(groups)@.remove(to), edge_view_models(old(views)@))
                }
            },
            None => (old(groups)@, edge_view_models(old(views)@)),
        },
{
    let ghost before = edge_view_models(views@);
    if let Some((from, to)) = split_two(row.0.as_str()) {
        if let Some(from) = decode_component_cached(from, cache) {
            if str_eq(from.as_str(), node_id) {
                if let Some(to) = decode_component_cached(to, cache) {
                    let data = groups.take(to.as_str());
                    if is_active_data(&data) {
                        let data = if hydrate {
                            data
                        } else {
                            schema.filter_edge_data(&data)
                        };
                        let view = EdgeView { to, data };
                        views.push(view);
                        proof {
                            assert(edge_view_models(views@) =~= before.push(view.model()));
                        }
                    }
                }
            }
        }
    }
}

/// Reads one node with its edges from the tables of one snapshot.
pub fn get_node_in(
    nodes: &Snapshot,
    node_data: &Snapshot,
    edges: &Snapshot,
    edge_data: &Snapshot,
    node_id: &str,
    schema: &SchemaCache,
    hydrate: bool,
) -> (r: Result<Option<NodeView>, redb::Error>)
    ensures
        r matches Ok(found) ==> match found {
            Some(view) => Some(view.model()),
            None => None,
        } == fetched_node(
            tables_of(nodes, node_data, edges, edge_data),
            utf8(node_id@),
            *schema,
            hydrate,
        ),
{
    let ghost id = utf8(node_id@);
    let mut cache = LruCache::new(2048);
    if !has_node_row(nodes, node_id)? {
        return Ok(None);
    }
    proof {
        reveal_strlit("");
        assert(utf8(""@) =~= Seq::<u8>::empty());
    }
    let mut scan = scan_rows(node_data, "")?;
    let ghost pairs = scan.rest();
    let mut data = PropertyMap::new();
    let ghost mut i: int = 0;
    let mut row = scan.next()?;
    proof {
        if pairs.len() > 0 {
            assert(pairs.drop_first() =~= pairs.skip(1));
        }
        assert(pairs.take(0) =~= Seq::<Pair>::empty());
    }
    while row.is_some()
        invariant
            0 <= i <= pairs.len(),
            row_ahead(row, scan.rest(), pairs, i),
            id == utf8(node_id@),
            holds_decodings(cache.pairs()),
            data@ == own_properties(pairs.take(i), id),
        decreases pairs.len() - i,
    {
        proof {
            assert(pairs.take(i + 1).drop_last() =~= pairs.take(i));
            assert(pairs.take(i + 1).last() == pairs[i]);
        }
        add_own_property(row.unwrap(), node_id, &mut cache, &mut data);
        proof {
            i = i + 1;
        }
        row = scan.next()?;
        proof {
            if i < pairs.len() {
                assert(pairs.skip(i).drop_first() =~= pairs.skip(i + 1));
            }
        }
    }
    proof {
        assert(pairs.take(i) =~= pairs);
    }
    if !is_active_data(&data) {
        return Ok(None);
    }
    let mut scan = scan_rows(edge_data, "")?;
    let ghost pairs = scan.rest();
    let mut groups = Groups::new();
    let ghost mut i: int = 0;
    let mut row = scan.next()?;
    proof {
        if pairs.len() > 0 {
            assert(pairs.drop_first() =~= pairs.skip(1));
        }
        assert(pairs.take(0) =~= Seq::<Pair>::empty());
    }
    while row.is_some()
        invariant
            0 <= i <= pairs.len(),
            row_ahead(row, scan.rest(), pairs, i),
            id == utf8(node_id@),
            holds_decodings(cache.pairs()),
            groups@ == own_groups(pairs.take(i), id),
        decreases pairs.len() - i,
    {
        proof {
            assert(pairs.take(i + 1).drop_last() =~= pairs.take(i));
            assert(pairs.take(i + 1).last() == pairs[i]);
        }
        add_own_group(row.unwrap(), node_id, &mut cache, &mut groups);
        proof {
            i = i + 1;
        }
        row = scan.next()?;
        proof {
            if i < pairs.len() {
                assert(pairs.skip(i).drop_first() =~= pairs.skip(i + 1));
            }
        }
    }
    proof {
        assert(pairs.take(i) =~= pairs);
    }
    let ghost grouped = groups@;
    let mut scan = scan_rows(edges, "")?;
    let ghost pairs = scan.rest();
    let mut views: Vec<EdgeView> = Vec::new();
    let ghost mut i: int = 0;
    let mut row = scan.next()?;
    proof {
        if pairs.len() > 0 {
            assert(pairs.drop_first() =~= pairs.skip(1));
        }
        assert(pairs.take(0) =~= Seq::<Pair>::empty());
        assert(edge_view_models(views@) =~= Seq::<EdgeModel>::empty());
    }
    while row.is_some()
        invariant
            0 <= i <= pairs.len(),
            row_ahead(row, scan.rest(), pairs, i),
            id == utf8(node_id@),
            holds_decodings(cache.pairs()),
            (groups@, edge_view_models(views@)) == own_edges(
                pairs.take(i),
                id,
                grouped,
                *schema,
                hydrate,
            ),
        decreases pairs.len() - i,
    {
        proof {
            assert(pairs.take(i + 1).drop_last() =~= pairs.take(i));
            assert(pairs.take(i + 1).last() == pairs[i]);
        }
        let found = row.unwrap();
        add_own_edge(&found, node_id, schema, hydrate, &mut cache, &mut groups, &mut views);
        proof {
            i = i + 1;
        }
        row = scan.next()?;
        proof {
            if i < pairs.len() {
                assert(pairs.skip(i).drop_first() =~= pairs.skip(i + 1));
            }
        }
    }
    proof {
        assert(pairs.take(i) =~= pairs);
    }
    let shown = if hydrate {
        data
    } else {
        schema.filter_node_data(&data)
    };
    Ok(Some(NodeView { id: node_id.to_owned(), data: shown, edges: views }))
}

/// An edge as a listing of edges shows it: its two ends and its properties.
#[derive(Debug)]
pub struct EdgeListView {
    pub from: String,
    pub to: String,
    pub data: PropertyMap,
}

/// A listed edge as contracts see it.
pub type ListedEdge = (Seq<u8>, Seq<u8>, Properties);

impl EdgeListView {
    /// The listed edge as contracts see it.
    pub open spec fn model(&self) -> ListedEdge {
        (utf8(self.from@), utf8(self.to@), self.data@)
    }
}

/// The listed edges of a list, as contracts see them.
pub open spec fn edge_list_models(edges: Seq<EdgeListView>) -> Seq<ListedEdge> {
    edges.map_values(|edge: EdgeListView| edge.model())
}

/// The keys of the edges of a list.
pub open spec fn edge_key_set(edges: Seq<(Seq<u8>, Seq<u8>)>) -> Set<Seq<u8>> {
    Set::new(
        |key: Seq<u8>|
            exists|i: int| 0 <= i < edges.len() && #[trigger] join2(edges[i].0, edges[i].1) == key,
    )
}

/// The value is the one that a filter asks for, if it asks for one.
pub open spec fn passes(filter: Option<Seq<u8>>, value: Seq<u8>) -> bool {
    match filter {
        Some(wanted) => value == wanted,
        None => true,
    }
}

/// The bytes of an optional string.
pub open spec fn opt_str(s: Option<&str>) -> Option<Seq<u8>> {
    match s {
        Some(s) => Some(utf8(s@)),
        None => None,
    }
}

/// Whether the value is the one that a filter asks for.
pub fn filter_passes(filter: Option<&str>, value: &str) -> (r: bool)
    ensures
        r == passes(opt_str(filter), utf8(value@)),
{
    match filter {
        Some(wanted) => str_eq(value, wanted),
        None => true,
    }
}

/// The keys of the edges of a list, as a set.
pub fn edge_keys_of(edges: &Vec<(String, String)>) -> (keys: IdSet)
    ensures
        keys@ == edge_key_set(string_pairs(edges@)),
{
    let ghost all = string_pairs(edges@);
    let mut keys = IdSet::new();
    let mut i: usize = 0;
    proof {
        assert(keys@ =~= edge_key_set(all.take(0)));
    }
    while i < edges.len()
        invariant
            0 <= i <= edges.len(),
            all == string_pairs(edges@),
            keys@ == edge_key_set(all.take(i as int)),
        decreases edges.len() - i,
    {
        let key = edge_key(edges[i].0.as_str(), edges[i].1.as_str());
        let ghost before = keys@;
        keys.insert(key);
        proof {
            let next = all.take(i + 1);
            let prev = all.take(i as int);
            assert forall|k: Seq<u8>| keys@.contains(k) <==> edge_key_set(next).contains(k) by {
                if before.contains(k) {
                    let j = choose|j: int|
                        0 <= j < prev.len() && #[trigger] join2(prev[j].0, prev[j].1) == k;
                    assert(join2(next[j].0, next[j].1) == k);
                }
                if k == utf8(key@) {
                    assert(join2(next[i as int].0, next[i as int].1) == k);
                }
                if edge_key_set(next).contains(k) {
                    let j = choose|j: int|
                        0 <= j < next.len() && #[trigger] join2(next[j].0, next[j].1) == k;
                    if j < i {
                        assert(join2(prev[j].0, prev[j].1) == k);
                    }
                }
            }
            assert(keys@ =~= edge_key_set(next));
        }
        i += 1;
    }
    proof {
        assert(all.take(i as int) =~= all);
    }
    keys
}

/// The edge that a listing by type shows for an edge that the index names:
/// the edge is active, passes the filters and has a row.
pub open spec fn typed_edge(
    edges: Map<Seq<u8>, Seq<u8>>,
    edge_data: Map<Seq<u8>, Seq<u8>>,
    active: Set<Seq<u8>>,
    from_filter: Option<Seq<u8>>,
    to_filter: Option<Seq<u8>>,
    schema: SchemaCache,
    hydrate: bool,
    edge: (Seq<u8>, Seq<u8>),
) -> Option<ListedEdge> {
    let key = join2(edge.0, edge.1);
    if active.contains(key) && passes(from_filter, edge.0) && passes(to_filter, edge.1)
        && edges.contains_key(key) {
        Some(
            (
                edge.0,
                edge.1,
                shown_edge_data(
                    schema,
                    edge_properties_of_rows(prefix_rows(edge_data, prefix2(edge.0, edge.1))),
                    hydrate,
                ),
            ),
        )
    } else {
        None
    }
}

/// The edges that a listing by type shows, in the order of the index.
pub open spec fn typed_edges(
    edges: Map<Seq<u8>, Seq<u8>>,
    edge_data: Map<Seq<u8>, Seq<u8>>,
    active: Set<Seq<u8>>,
    from_filter: Option<Seq<u8>>,
    to_filter: Option<Seq<u8>>,
    schema: SchemaCache,
    hydrate: bool,
    named: Seq<(Seq<u8>, Seq<u8>)>,
) -> Seq<ListedEdge>
    decreases named.len(),
{
    if named.len() == 0 {
        Seq::empty()
    } else {
        let before = typed_edges(
            edges,
            edge_data,
            active,
            from_filter,
            to_filter,
            schema,
            hydrate,
            named.drop_last(),
        );
        match typed_edge(
            edges,
            edge_data,
            active,
            from_filter,
            to_filter,
            schema,
            hydrate,
            named.last(),
        ) {
            Some(edge) => before.push(edge),
            None => before,
        }
    }
}

/// The edge out of `from` that a row of the edge table gives in a listing
/// by source: its target passes the filter, the edge is active in the index
/// and by its properties.
pub open spec fn source_edge(
    row: Pair,
    from: Seq<u8>,
    groups: Map<Seq<u8>, Properties>,
    active: Set<Seq<u8>>,
    to_filter: Option<Seq<u8>>,
    schema: SchemaCache,
    hydrate: bool,
) -> Option<ListedEdge> {
    match cut2(row.0) {
        Some((_, encoded)) => match decode(encoded) {
            Some(to) => {
                let data = props_or_empty(groups, to);
                if passes(to_filter, to) && active.contains(join2(from, to)) && active_data(data) {
                    Some((from, to, shown_edge_data(schema, data, hydrate)))
                } else {
                    None
                }
            },
            None => None,
        },
        None => None,
    }
}

/// The edges that a listing by source shows, in the order of the rows.
pub open spec fn source_edges(
    rows: Seq<Pair>,
    from: Seq<u8>,
    groups: Map<Seq<u8>, Properties>,
    active: Set<Seq<u8>>,
    to_filter: Option<Seq<u8>>,
    schema: SchemaCache,
    hydrate: bool,
) -> Seq<ListedEdge>
    decreases rows.len(),
{
    if rows.len() == 0 {
        Seq::empty()
    } else {
        let before = source_edges(
            rows.drop_last(),
            from,
            groups,
            active,
            to_filter,
            schema,
            hydrate,
        );
        match source_edge(rows.last(), from, groups, active, to_filter, schema, hydrate) {
            Some(edge) => before.push(edge),
            None => before,
        }
    }
}

/// The edge, the key and the value that a property row of an edge holds.
pub open spec fn row_keyed_property(row: Pair) -> Option<(Seq<u8>, Pair)> {
    match cut3(row.0) {
        Some((from, to, key)) => match (decode(from), decode(to), decode(key)) {
            (Some(from), Some(to), Some(key)) => Some((join2(from, to), (key, row.1))),
            _ => None,
        },
        None => None,
    }
}

/// The properties that property rows give to edges, under the key of each
/// edge.
pub open spec fn keyed_groups(rows: Seq<Pair>) -> Map<Seq<u8>, Properties>
    decreases rows.len(),
{
    if rows.len() == 0 {
        Map::empty()
    } else {
        let before = keyed_groups(rows.drop_last());
        match row_keyed_property(rows.last()) {
            Some((edge, property)) => with_property(before, edge, property.0, property.1),
            None => before,
        }
    }
}

/// The two ends of the edge that a row of the edge table holds.
pub open spec fn row_ends(row: Pair) -> Option<(Seq<u8>, Seq<u8>)> {
    match cut2(row.0) {
        Some((from, to)) => match (decode(from), decode(to)) {
            (Some(from), Some(to)) => Some((from, to)),
            _ => None,
        },
        None => None,
    }
}

/// The edges that a listing of all edges shows, in the order of the rows of
/// the edge table, and the groups of properties that are left: an edge that
/// is active in the index and passes the filter takes the group of its key,
/// and is shown where the properties are those of an active edge.
pub open spec fn swept_edges(
    rows: Seq<Pair>,
    groups: Map<Seq<u8>, Properties>,
    active: Set<Seq<u8>>,
    to_filter: Option<Seq<u8>>,
    schema: SchemaCache,
    hydrate: bool,
) -> (Map<Seq<u8>, Properties>, Seq<ListedEdge>)
    decreases rows.len(),
{
    if rows.len() == 0 {
        (groups, Seq::empty())
    } else {
        let before = swept_edges(rows.drop_last(), groups, active, to_filter, schema, hydrate);
        match row_ends(rows.last()) {
            Some((from, to)) => {
                let key = join2(from, to);
                if active.contains(key) && passes(to_filter, to) {
                    let data = props_or_empty(before.0, key);
                    if active_data(data) {
                        (
                            before.0.remove(key),
                            before.1.push((from, to, shown_edge_data(schema, data, hydrate))),
                        )
                    } else {
                        (before.0.remove(key), before.1)
                    }
                } else {
                    before
                }
            },
            None => before,
        }
    }
}

/// What a listing of the edges shows. With a type: the active edges that
/// the index names under it, in the order of the index. Else with a source:
/// the active edges out of it, in the order of the edge table. Else all
/// active edges, in the order of the edge table.
pub open spec fn edge_listing(
    index: Map<Seq<u8>, Seq<u8>>,
    edges: Map<Seq<u8>, Seq<u8>>,
    edge_data: Map<Seq<u8>, Seq<u8>>,
    kind: Option<Seq<u8>>,
    from_filter: Option<Seq<u8>>,
    to_filter: Option<Seq<u8>>,
    schema: SchemaCache,
    hydrate: bool,
) -> Seq<ListedEdge> {
    let active = edge_key_set(
        edges_of_rows(prefix_rows(index, prefix2(utf8(STATUS_KEY@), utf8(STATUS_ACTIVE@)))),
    );
    match kind {
        Some(kind) => typed_edges(
            edges,
            edge_data,
            active,
            from_filter,
            to_filter,
            schema,
            hydrate,
            edges_of_rows(prefix_rows(index, prefix2(utf8(TYPE_KEY@), kind))),
        ),
        None => match from_filter {
            Some(from) => source_edges(
                prefix_rows(edges, prefix1(from)),
                from,
                groups_of_rows(prefix_rows(edge_data, prefix1(from))),
                active,
                to_filter,
                schema,
                hydrate,
            ),
            None => swept_edges(
                all_rows(edges),
                keyed_groups(all_rows(edge_data)),
                active,
                to_filter,
                schema,
                hydrate,
            ).1,
        },
    }
}

/// Whether a listing by type asks for the row of an edge that the index
/// names: the edge is active and passes both filters.
pub fn wants_typed_edge(
    active: &IdSet,
    from_filter: Option<&str>,
    to_filter: Option<&str>,
    from: &str,
    to: &str,
) -> (r: bool)
    ensures
        r == (active@.contains(join2(utf8(from@), utf8(to@))) && passes(
            opt_str(from_filter),
            utf8(from@),
        ) && passes(opt_str(to_filter), utf8(to@))),
{
    let key = edge_key(from, to);
    active.contains(key.as_str()) && filter_passes(from_filter, from) && filter_passes(
        to_filter,
        to,
    )
}

/// Adds an edge with its stored properties to a listing: with all of them
/// where the reader asks for the stored properties, else with the part that
/// is kept in memory.
pub fn add_typed_edge(
    from: &str,
    to: &str,
    data: PropertyMap,
    schema: &SchemaCache,
    hydrate: bool,
    views: &mut Vec<EdgeListView>,
)
    ensures
        edge_list_models(final(views)@) == edge_list_models(old(views)@).push(
            (utf8(from@), utf8(to@), shown_edge_data(*schema, data@, hydrate)),
        ),
{
    let ghost before = edge_list_models(views@);
    let data = if hydrate {
        data
    } else {
        schema.filter_edge_data(&data)
    };
    let view = EdgeListView { from: from.to_owned(), to: to.to_owned(), data };
    views.push(view);
    proof {
        assert(edge_list_models(views@) =~= before.push(view.model()));
    }
}

/// Adds to `views` the edge out of `from` that a row of the edge table
/// gives in a listing by source; a row that gives none is passed over.
pub fn add_source_edge(
    row: &(String, String),
    from: &str,
    groups: &Groups,
    active: &IdSet,
    to_filter: Option<&str>,
    schema: &SchemaCache,
    hydrate: bool,
    cache: &mut LruCache,
    views: &mut Vec<EdgeListView>,
)
    ensures
        holds_decodings(old(cache).pairs()) ==> holds_decodings(final(cache).pairs()),
        holds_decodings(old(cache).pairs()) ==> edge_list_models(final(views)@) == match source_edge(
            row_bytes(*row),
            utf8(from@),
            groups@,
            active@,
            opt_str(to_filter),
            *schema,
            hydrate,
        ) {
            Some(edge) => edge_list_models(old(views)@).push(edge),
            None => edge_list_models(old(views)@),
        },
{
    let ghost before = edge_list_models(views@);
    if let Some((_, encoded)) = split_two(row.0.as_str()) {
        if let Some(to) = decode_component_cached(encoded, cache) {
            if filter_passes(to_filter, to.as_str()) {
                let key = edge_key(from, to.as_str());
                if active.contains(key.as_str()) {
                    let data = groups.get_or_empty(to.as_str());
                    if is_active_data(&data) {
                        let data = if hydrate {
                            data
                        } else {
                            schema.filter_edge_data(&data)
                        };
                        let view = EdgeListView { from: from.to_owned(), to, data };
                        views.push(view);
                        proof {
                            assert(edge_list_models(views@) =~= before.push(view.model()));
                        }
                    }
                }
            }
        }
    }
}

/// Puts into `groups` the property that a property row of an edge holds,
/// under the key of the edge; a row that holds none is passed over.
pub fn add_keyed_group(row: (String, String), cache: &mut LruCache, groups: &mut Groups)
    ensures
        holds_decodings(old(cache).pairs()) ==> holds_decodings(final(cache).pairs()),
        holds_decodings(old(cache).pairs()) ==> final(groups)@ == match row_keyed_property(
            row_bytes(row),
        ) {
            Some((edge, property)) => with_property(old(groups)@, edge, property.0, property.1),
            None => old(groups)@,
        },
{
    let (row_key, row_value) = row;
    if let Some((from, to, key)) = split_three(row_key.as_str()) {
        if let Some(from) = decode_component_cached(from, cache) {
            if let Some(to) = decode_component_cached(to, cache) {
                if let Some(key) = decode_component_cached(key, cache) {
                    let edge = edge_key(from.as_str(), to.as_str());
                    groups.add(edge.as_str(), key, row_value);
                }
            }
        }
    }
}

/// Takes the edge that a row of the edge table holds in a listing of all
/// edges: where the edge is active in the index and passes the filter, the
/// group of its key leaves `groups`, and the edge is added to `views` where
/// the group holds the properties of an active edge. Another row is passed
/// over.
pub fn add_swept_edge(
    row: &(String, String),
    active: &IdSet,
    to_filter: Option<&str>,
    schema: &SchemaCache,
    hydrate: bool,
    cache: &mut LruCache,
    groups: &mut Groups,
    views: &mut Vec<EdgeListView>,
)
    ensures
        holds_decodings(old(cache).pairs()) ==> holds_decodings(final(cache).pairs()),
        holds_decodings(old(cache).pairs()) ==> (final(groups)@, edge_list_models(final(views)@))
            == match row_ends(row_bytes(*row)) {
            Some((from, to)) => {
                let key = join2(from, to);
                if active@.contains(key) && passes(opt_str(to_filter), to) {
                    let data = props_or_empty(old(groups)@, key);
                    if active_data(data) {
                        (
                            old(groups)@.remove(key),
                            edge_list_models(old(views)@).push(
                                (from, to, shown_edge_data(*schema, data, hydrate)),
                            ),
                        )
                    } else {
                        (old(groups)@.remove(key), edge_list_models(old(views)@))
                    }
                } else {
                    (old(groups)@, edge_list_models(old(views)@))
                }
            },
            None => (old(groups)@, edge_list_models(old(views)@)),
        },
{
    let ghost before = edge_list_models(views@);
    if let Some((from, to)) = split_two(row.0.as_str()) {
        if let Some(from) = decode_component_cached(from, cache) {
            if let Some(to) = decode_component_cached(to, cache) {
                let key = edge_key(from.as_str(), to.as_str());
                if active.contains(key.as_str()) && filter_passes(to_filter, to.as_str()) {
                    let data = groups.take(key.as_str());
                    if is_active_data(&data) {
                        let data = if hydrate {
                            data
                        } else {
                            schema.filter_edge_data(&data)
                        };
                        let view = EdgeListView { from, to, data };
                        views.push(view);
                        proof {
                            assert(edge_list_models(views@) =~= before.push(view.model()));
                        }
                    }
                }
            }
        }
    }
}

/// Lists the active edges, filtered by type, source and target, from the
/// tables of one snapshot.
pub fn list_edges_in(
    edge_index: &Snapshot,
    edges: &Snapshot,
    edge_data: &Snapshot,
    kind: Option<&str>,
    from_filter: Option<&str>,
    to_filter: Option<&str>,
    schema: &SchemaCache,
    hydrate: bool,
) -> (r: Result<Vec<EdgeListView>, redb::Error>)
    ensures
        r matches Ok(views) ==> edge_list_models(views@) == edge_listing(
            snapshot_rows(edge_index),
            snapshot_rows(edges),
            snapshot_rows(edge_data),
            opt_str(kind),
            opt_str(from_filter),
            opt_str(to_filter),
            *schema,
            hydrate,
        ),
{
    let mut cache = LruCache::new(4096);
    let active_edges = edge_ids_by_index(edge_index, STATUS_KEY, STATUS_ACTIVE)?;
    let active = edge_keys_of(&active_edges);
    let mut views: Vec<EdgeListView> = Vec::new();
    proof {
        assert(edge_list_models(views@) =~= Seq::<ListedEdge>::empty());
        reveal_strlit("");
        assert(utf8(""@) =~= Seq::<u8>::empty());
    }
    if let Some(kind) = kind {
        let named = edge_ids_by_index(edge_index, TYPE_KEY, kind)?;
        let ghost all = string_pairs(named@);
        let mut i: usize = 0;
        proof {
            assert(all.take(0) =~= Seq::<(Seq<u8>, Seq<u8>)>::empty());
        }
        while i < named.len()
            invariant
                0 <= i <= named.len(),
                all == string_pairs(named@),
                edge_list_models(views@) == typed_edges(
                    snapshot_rows(edges),
                    snapshot_rows(edge_data),
                    active@,
                    opt_str(from_filter),
                    opt_str(to_filter),
                    *schema,
                    hydrate,
                    all.take(i as int),
                ),
            decreases named.len() - i,
        {
            proof {
                assert(all.take(i + 1).drop_last() =~= all.take(i as int));
                assert(all.take(i + 1).last() == all[i as int]);
            }
            let from = named[i].0.as_str();
            let to = named[i].1.as_str();
            if wants_typed_edge(&active, from_filter, to_filter, from, to) {
                if has_edge_row(edges, from, to)? {
                    let data = load_edge_data_for_edge(edge_data, from, to)?;
                    add_typed_edge(from, to, data, schema, hydrate, &mut views);
                }
            }
            i += 1;
        }
        proof {
            assert(all.take(i as int) =~= all);
        }
        return Ok(views);
    }
    if let Some(from) = from_filter {
        let groups = load_edge_data_for_from(edge_data, from)?;
        let prefix = edge_from_prefix(from);
        let mut scan = scan_rows(edges, prefix.as_str())?;
        let ghost pairs = scan.rest();
        let ghost mut i: int = 0;
        let mut row = scan.next()?;
        proof {
            if pairs.len() > 0 {
                assert(pairs.drop_first() =~= pairs.skip(1));
            }
            assert(pairs.take(0) =~= Seq::<Pair>::empty());
        }
        while row.is_some()
            invariant
                0 <= i <= pairs.len(),
                row_ahead(row, scan.rest(), pairs, i),
                holds_decodings(cache.pairs()),
                edge_list_models(views@) == source_edges(
                    pairs.take(i),
                    utf8(from@),
                    groups@,
                    active@,
                    opt_str(to_filter),
                    *schema,
                    hydrate,
                ),
            decreases pairs.len() - i,
        {
            proof {
                assert(pairs.take(i + 1).drop_last() =~= pairs.take(i));
                assert(pairs.take(i + 1).last() == pairs[i]);
            }
            let found = row.unwrap();
            add_source_edge(
                &found,
                from,
                &groups,
                &active,
                to_filter,
                schema,
                hydrate,
                &mut cache,
                &mut views,
            );
            proof {
                i = i + 1;
            }
            row = scan.next()?;
            proof {
                if i < pairs.len() {
                    assert(pairs.skip(i).drop_first() =~= pairs.skip(i + 1));
                }
            }
        }
        proof {
            assert(pairs.take(i) =~= pairs);
        }
        return Ok(views);
    }
    let mut scan = scan_rows(edge_data, "")?;
    let ghost pairs = scan.rest();
    let mut groups = Groups::new();
    let ghost mut i: int = 0;
    let mut row = scan.next()?;
    proof {
        if pairs.len() > 0 {
            assert(pairs.drop_first() =~= pairs.skip(1));
        }
        assert(pairs.take(0) =~= Seq::<Pair>::empty());
    }
    while row.is_some()
        invariant
            0 <= i <= pairs.len(),
            row_ahead(row, scan.rest(), pairs, i),
            holds_decodings(cache.pairs()),
            groups@ == keyed_groups(pairs.take(i)),
        decreases pairs.len() - i,
    {
        proof {
            assert(pairs.take(i + 1).drop_last() =~= pairs.take(i));
            assert(pairs.take(i + 1).last() == pairs[i]);
        }
        add_keyed_group(row.unwrap(), &mut cache, &mut groups);
        proof {
            i = i + 1;
        }
        row = scan.next()?;
        proof {
            if i < pairs.len() {
                assert(pairs.skip(i).drop_first() =~= pairs.skip(i + 1));
            }
        }
    }
    proof {
        assert(pairs.take(i) =~= pairs);
    }
    let ghost grouped = groups@;
    let mut scan = scan_rows(edges, "")?;
    let ghost pairs = scan.rest();
    let ghost mut i: int = 0;
    let mut row = scan.next()?;
    proof {
        if pairs.len() > 0 {
            assert(pairs.drop_first() =~= pairs.skip(1));
        }
        assert(pairs.take(0) =~= Seq::<Pair>::empty());
    }
    while row.is_some()
        invariant
            0 <= i <= pairs.len(),
            row_ahead(row, scan.rest(), pairs, i),
            holds_decodings(cache.pairs()),
            from_filter is None,
            (groups@, edge_list_models(views@)) == swept_edges(
                pairs.take(i),
                grouped,
                active@,
                opt_str(to_filter),
                *schema,
                hydrate,
            ),
        decreases pairs.len() - i,
    {
        proof {
            assert(pairs.take(i + 1).drop_last() =~= pairs.take(i));
            assert(pairs.take(i + 1).last() == pairs[i]);
        }
        let found = row.unwrap();
        add_swept_edge(
            &found,
            &active,
            to_filter,
            schema,
            hydrate,
            &mut cache,
            &mut groups,
            &mut views,
        );
        proof {
            i = i + 1;
        }
        row = scan.next()?;
        proof {
            if i < pairs.len() {
                assert(pairs.skip(i).drop_first() =~= pairs.skip(i + 1));
            }
        }
    }
    proof {
        assert(pairs.take(i) =~= pairs);
    }
    Ok(views)
}

} // verus!
