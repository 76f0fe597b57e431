use vstd::prelude::*;
use crate::text::{utf8, str_eq};
use crate::assoc::{distinct_keys, has_key, key_index, pairs_map, without_key, index_matches, lemma_pairs_map_at, lemma_pairs_map_push, lemma_pairs_map_update, lemma_pairs_map_remove};
use crate::props::PropertyMap;
use vstd::hash_map::StringHashMap;

verus! {

/// A property map as contracts see it.
pub type Properties = Map<Seq<u8>, Seq<u8>>;

/// An edge as contracts see it: its target and its properties.
pub type EdgeModel = (Seq<u8>, Properties);

/// A node as contracts see it: its outgoing edges, in the order in which
/// they came, and its properties.
pub struct NodeModel {
    pub edges: Seq<EdgeModel>,
    pub data: Properties,
}

/// The graph as contracts see it: a node under each id.
pub type GraphModel = Map<Seq<u8>, NodeModel>;

/// A node without edges and without properties.
pub open spec fn empty_node() -> NodeModel {
    NodeModel { edges: Seq::empty(), data: Map::empty() }
}

/// No node has two edges to one target.
pub open spec fn edges_distinct(graph: GraphModel) -> bool {
    forall|id: Seq<u8>| graph.contains_key(id) ==> distinct_keys(#[trigger] graph[id].edges)
}

/// The graph has an edge from `from` to `to`.
pub open spec fn edge_in(graph: GraphModel, from: Seq<u8>, to: Seq<u8>) -> bool {
    graph.contains_key(from) && has_key(graph[from].edges, to)
}

/// The properties of the edge from `from` to `to`.
pub open spec fn edge_data(graph: GraphModel, from: Seq<u8>, to: Seq<u8>) -> Properties {
    graph[from].edges[key_index(graph[from].edges, to)].1
}

/// The graph with one more node, unless it has one under that id.
pub open spec fn with_node(graph: GraphModel, id: Seq<u8>) -> GraphModel {
    if graph.contains_key(id) {
        graph
    } else {
        graph.insert(id, empty_node())
    }
}

/// The graph with one more edge, without properties, at the end of the
/// edges of `from`; unchanged where `from` is no node or has that edge.
pub open spec fn with_edge(graph: GraphModel, from: Seq<u8>, to: Seq<u8>) -> GraphModel {
    if graph.contains_key(from) && !has_key(graph[from].edges, to) {
        graph.insert(
            from,
            NodeModel {
                edges: graph[from].edges.push((to, Map::empty())),
                data: graph[from].data,
            },
        )
    } else {
        graph
    }
}

/// The graph with a property of a node set; unchanged where `id` is no node.
pub open spec fn with_node_data(
    graph: GraphModel,
    id: Seq<u8>,
    key: Seq<u8>,
    value: Seq<u8>,
) -> GraphModel {
    if graph.contains_key(id) {
        graph.insert(
            id,
            NodeModel { edges: graph[id].edges, data: graph[id].data.insert(key, value) },
        )
    } else {
        graph
    }
}

/// The graph with a property of an edge set; unchanged where there is no
/// such edge.
pub open spec fn with_edge_data(
    graph: GraphModel,
    from: Seq<u8>,
    to: Seq<u8>,
    key: Seq<u8>,
    value: Seq<u8>,
) -> GraphModel {
    if edge_in(graph, from, to) {
        let edges = graph[from].edges;
        let i = key_index(edges, to);
        graph.insert(
            from,
            NodeModel {
                edges: edges.update(i, (to, edges[i].1.insert(key, value))),
                data: graph[from].data,
            },
        )
    } else {
        graph
    }
}

/// The graph without the edge from `from` to `to`.
pub open spec fn without_edge(graph: GraphModel, from: Seq<u8>, to: Seq<u8>) -> GraphModel {
    if graph.contains_key(from) {
        graph.insert(
            from,
            NodeModel { edges: without_key(graph[from].edges, to), data: graph[from].data },
        )
    } else {
        graph
    }
}

/// The graph without the node `id` and without the edges that lead to it.
pub open spec fn without_node(graph: GraphModel, id: Seq<u8>) -> GraphModel {
    Map::new(
        |k: Seq<u8>| graph.contains_key(k) && k != id,
        |k: Seq<u8>| NodeModel { edges: without_key(graph[k].edges, id), data: graph[k].data },
    )
}

/// Each id of `path` but the last has an edge to the next.
pub open spec fn is_path(graph: GraphModel, path: Seq<Seq<u8>>) -> bool {
    path.len() > 0 && forall|i: int|
        0 <= i < path.len() - 1 ==> edge_in(graph, #[trigger] path[i], path[i + 1])
}

/// Some path leads from `from` to `to`. Every id reaches itself, node or not.
pub open spec fn reachable(graph: GraphModel, from: Seq<u8>, to: Seq<u8>) -> bool {
    exists|path: Seq<Seq<u8>>| is_path(graph, path) && path[0] == from && path.last() == to
}

/// Every id reaches itself.
pub proof fn lemma_reachable_self(graph: GraphModel, id: Seq<u8>)
    ensures
        reachable(graph, id, id),
{
    let path = seq![id];
    assert(is_path(graph, path) && path[0] == id && path.last() == id);
}

/// What reaches the source of an edge reaches its target.
pub proof fn lemma_reachable_step(graph: GraphModel, a: Seq<u8>, b: Seq<u8>, c: Seq<u8>)
    requires
        reachable(graph, a, b),
        edge_in(graph, b, c),
    ensures
        reachable(graph, a, c),
{
    let path = choose|path: Seq<Seq<u8>>| is_path(graph, path) && path[0] == a && path.last() == b;
    let longer = path.push(c);
    assert forall|i: int| 0 <= i < longer.len() - 1 implies edge_in(
        graph,
        #[trigger] longer[i],
        longer[i + 1],
    ) by {
        if i < path.len() - 1 {
            assert(edge_in(graph, path[i], path[i + 1]));
        }
    }
    assert(is_path(graph, longer) && longer[0] == a && longer.last() == c);
}

/// From an id that is no node, only the id itself is reached.
pub proof fn lemma_reachable_from_absent(graph: GraphModel, a: Seq<u8>, b: Seq<u8>)
    requires
        !graph.contains_key(a),
        a != b,
    ensures
        !reachable(graph, a, b),
{
    if reachable(graph, a, b) {
        let path = choose|path: Seq<Seq<u8>>|
            is_path(graph, path) && path[0] == a && path.last() == b;
        assert(edge_in(graph, path[0], path[1]));
    }
}

/// The number of entries that are not set.
pub open spec fn unvisited(visited: Seq<bool>) -> nat
    decreases visited.len(),
{
    if visited.len() == 0 {
        0
    } else {
        unvisited(visited.drop_last()) + if visited.last() {
            0nat
        } else {
            1nat
        }
    }
}

proof fn lemma_unvisited_mark(visited: Seq<bool>, v: int)
    requires
        0 <= v < visited.len(),
        !visited[v],
    ensures
        unvisited(visited.update(v, true)) + 1 == unvisited(visited),
    decreases visited.len(),
{
    let marked = visited.update(v, true);
    if v == visited.len() - 1 {
        assert(marked.drop_last() =~= visited.drop_last());
    } else {
        lemma_unvisited_mark(visited.drop_last(), v);
        assert(marked.drop_last() =~= visited.drop_last().update(v, true));
    }
}

/// The edge target `to` is not the one sought, and where it is a node, the
/// node has been visited.
spec fn edge_settled(
    entries: Seq<(Seq<u8>, NodeModel)>,
    visited: Seq<bool>,
    target: Seq<u8>,
    to: Seq<u8>,
) -> bool {
    to != target && forall|w: int|
        0 <= w < entries.len() && (#[trigger] entries[w]).0 == to ==> visited[w]
}

/// Every edge of the node at `v` is settled.
spec fn settled(
    entries: Seq<(Seq<u8>, NodeModel)>,
    visited: Seq<bool>,
    target: Seq<u8>,
    v: int,
) -> bool {
    forall|j: int|
        0 <= j < entries[v].1.edges.len() ==> edge_settled(
            entries,
            visited,
            target,
            (#[trigger] entries[v].1.edges[j]).0,
        )
}

proof fn lemma_edge_settled_stays(
    entries: Seq<(Seq<u8>, NodeModel)>,
    visited: Seq<bool>,
    target: Seq<u8>,
    to: Seq<u8>,
    w: int,
)
    requires
        edge_settled(entries, visited, target, to),
        0 <= w < visited.len(),
        visited.len() == entries.len(),
    ensures
        edge_settled(entries, visited.update(w, true), target, to),
{
}

proof fn lemma_settled_stays(
    entries: Seq<(Seq<u8>, NodeModel)>,
    visited: Seq<bool>,
    target: Seq<u8>,
    v: int,
    w: int,
)
    requires
        settled(entries, visited, target, v),
        0 <= w < visited.len(),
        visited.len() == entries.len(),
    ensures
        settled(entries, visited.update(w, true), target, v),
{
    assert forall|j: int| 0 <= j < entries[v].1.edges.len() implies edge_settled(
        entries,
        visited.update(w, true),
        target,
        (#[trigger] entries[v].1.edges[j]).0,
    ) by {
        lemma_edge_settled_stays(entries, visited, target, entries[v].1.edges[j].0, w);
    }
}

proof fn lemma_path_stays_visited(
    entries: Seq<(Seq<u8>, NodeModel)>,
    visited: Seq<bool>,
    target: Seq<u8>,
    path: Seq<Seq<u8>>,
    i: int,
)
    requires
        distinct_keys(entries),
        visited.len() == entries.len(),
        forall|v: int| 0 <= v < entries.len() && visited[v] ==> settled(entries, visited, target, v),
        is_path(pairs_map(entries), path),
        path[0] != target,
        has_key(entries, path[0]),
        visited[key_index(entries, path[0])],
        0 <= i < path.len(),
    ensures
        path[i] != target,
        has_key(entries, path[i]) ==> visited[key_index(entries, path[i])],
    decreases i,
{
    if i > 0 {
        lemma_path_stays_visited(entries, visited, target, path, i - 1);
        let graph = pairs_map(entries);
        let a = path[i - 1];
        assert(edge_in(graph, a, path[i - 1 + 1]));
        let v = key_index(entries, a);
        lemma_pairs_map_at(entries, v);
        assert(settled(entries, visited, target, v));
        let edges = entries[v].1.edges;
        let j = key_index(edges, path[i]);
        assert(edge_settled(entries, visited, target, edges[j].0));
        if has_key(entries, path[i]) {
            let w = key_index(entries, path[i]);
            assert(entries[w].0 == path[i]);
        }
    }
}

/// Where every visited node has only settled edges, the target cannot be
/// reached from a visited node.
proof fn lemma_settled_unreachable(
    entries: Seq<(Seq<u8>, NodeModel)>,
    visited: Seq<bool>,
    target: Seq<u8>,
    s: int,
)
    requires
        distinct_keys(entries),
        visited.len() == entries.len(),
        forall|v: int| 0 <= v < entries.len() && visited[v] ==> settled(entries, visited, target, v),
        0 <= s < entries.len(),
        visited[s],
        entries[s].0 != target,
    ensures
        !reachable(pairs_map(entries), entries[s].0, target),
{
    let graph = pairs_map(entries);
    if reachable(graph, entries[s].0, target) {
        let path = choose|path: Seq<Seq<u8>>|
            is_path(graph, path) && path[0] == entries[s].0 && path.last() == target;
        lemma_pairs_map_at(entries, s);
        lemma_path_stays_visited(entries, visited, target, path, path.len() - 1);
    }
}

/// A directed edge of the cache: its target and its properties.
#[derive(Debug)]
pub struct Edge {
    pub to: String,
    pub data: PropertyMap,
}

/// A node of the cache: its id, its outgoing edges and its properties.
#[derive(Debug)]
pub struct Node {
    pub id: String,
    pub neighbors: Vec<Edge>,
    pub data: PropertyMap,
}

impl Edge {
    /// The edge as contracts see it.
    pub open spec fn model(&self) -> EdgeModel {
        (utf8(self.to@), self.data@)
    }

    /// An edge to `to` without properties.
    pub fn new(to: &str) -> (edge: Self)
        ensures
            edge.model() == (utf8(to@), Map::<Seq<u8>, Seq<u8>>::empty()),
    {
        Edge { to: to.to_owned(), data: PropertyMap::new() }
    }
}

/// The edges of a list, as contracts see them.
pub open spec fn edge_models(edges: Seq<Edge>) -> Seq<EdgeModel> {
    edges.map_values(|edge: Edge| edge.model())
}

impl Node {
    /// The node as contracts see it.
    pub open spec fn model(&self) -> NodeModel {
        NodeModel { edges: edge_models(self.neighbors@), data: self.data@ }
    }

    /// A node without edges and without properties.
    pub fn new(id: &str) -> (node: Self)
        ensures
            utf8(node.id@) == utf8(id@),
            node.model() == empty_node(),
    {
        let node = Node { id: id.to_owned(), neighbors: Vec::new(), data: PropertyMap::new() };
        assert(edge_models(node.neighbors@) =~= Seq::<EdgeModel>::empty());
        node
    }
}

/// The nodes of a list, each with its id, as contracts see them.
pub open spec fn node_entries(nodes: Seq<Node>) -> Seq<(Seq<u8>, NodeModel)> {
    nodes.map_values(|node: Node| (utf8(node.id@), node.model()))
}

/// What holds of the nodes of a graph: no id occurs twice, and no node has
/// two edges to one target.
pub open spec fn nodes_valid(entries: Seq<(Seq<u8>, NodeModel)>) -> bool {
    &&& distinct_keys(entries)
    &&& forall|i: int| 0 <= i < entries.len() ==> distinct_keys(#[trigger] entries[i].1.edges)
}

proof fn lemma_valid_nodes_give_distinct_edges(entries: Seq<(Seq<u8>, NodeModel)>)
    requires
        nodes_valid(entries),
    ensures
        edges_distinct(pairs_map(entries)),
{
    assert forall|id: Seq<u8>| pairs_map(entries).contains_key(id) implies distinct_keys(
        #[trigger] pairs_map(entries)[id].edges,
    ) by {
        let i = key_index(entries, id);
        lemma_pairs_map_at(entries, i);
    }
}

fn edge_position(edges: &Vec<Edge>, to: &str) -> (found: Option<usize>)
    ensures
        match found {
            Some(i) => i < edges@.len() && edge_models(edges@)[i as int].0 == utf8(to@),
            None => !has_key(edge_models(edges@), utf8(to@)),
        },
{
    let mut i: usize = 0;
    while i < edges.len()
        invariant
            0 <= i <= edges.len(),
            forall|j: int| 0 <= j < i ==> edge_models(edges@)[j].0 != utf8(to@),
        decreases edges.len() - i,
    {
        if str_eq(edges[i].to.as_str(), to) {
            return Some(i);
        }
        i += 1;
    }
    None
}

/// The ids of the nodes of a list.
pub open spec fn node_ids(nodes: Seq<Node>) -> Seq<Seq<char>> {
    nodes.map_values(|node: Node| node.id@)
}

/// The index of a list of nodes with different ids.
fn index_of_nodes(nodes: &Vec<Node>) -> (index: StringHashMap<usize>)
    requires
        distinct_keys(node_entries(nodes@)),
    ensures
        index_matches(index@, node_ids(nodes@)),
{
    let ghost ids = node_ids(nodes@);
    let mut index: StringHashMap<usize> = StringHashMap::new();
    let mut i: usize = 0;
    proof {
        assert forall|a: int, b: int| 0 <= a < b < ids.len() implies ids[a] != ids[b] by {
            assert(node_entries(nodes@)[a].0 != node_entries(nodes@)[b].0);
        }
    }
    while i < nodes.len()
        invariant
            0 <= i <= nodes.len(),
            ids == node_ids(nodes@),
            forall|a: int, b: int| 0 <= a < b < ids.len() ==> ids[a] != ids[b],
            index_matches(index@, ids.take(i as int)),
        decreases nodes.len() - i,
    {
        let ghost places = index@;
        index.insert(nodes[i].id.clone(), i);
        proof {
            let more = ids.take(i + 1);
            let less = ids.take(i as int);
            assert(more[i as int] == ids[i as int]);
            assert forall|a: int| 0 <= a < more.len() implies index@.contains_key(
                #[trigger] more[a],
            ) && index@[more[a]] == a by {
                if a < i {
                    assert(less[a] == more[a]);
                    assert(ids[a] != ids[i as int]);
                }
            }
            assert forall|id: Seq<char>| #[trigger] index@.contains_key(id) implies index@[id]
                < more.len() && more[index@[id] as int] == id by {
                if id != ids[i as int] {
                    assert(places.contains_key(id));
                    assert(less[places[id] as int] == id);
                }
            }
        }
        i += 1;
    }
    proof {
        assert(ids.take(i as int) =~= ids);
    }
    index
}

/// The nodes of a graph, and the place of each by its id.
struct GraphState {
    nodes: Vec<Node>,
    index: StringHashMap<usize>,
}

/// The in-memory graph: the active nodes, each with its outgoing edges.
pub struct Graph {
    state: GraphState,
}

impl Graph {
    /// The nodes in the order in which they are kept.
    pub closed spec fn entries(&self) -> Seq<(Seq<u8>, NodeModel)> {
        node_entries(self.state.nodes@)
    }

    #[verifier::type_invariant]
    spec fn valid(&self) -> bool {
        nodes_valid(self.entries()) && index_matches(
            self.state.index@,
            node_ids(self.state.nodes@),
        )
    }

    /// The node under each id.
    pub open spec fn view(&self) -> GraphModel {
        pairs_map(self.entries())
    }

    /// The graph without nodes.
    pub fn new() -> (graph: Self)
        ensures
            graph@ == Map::<Seq<u8>, NodeModel>::empty(),
    {
        let graph = Graph { state: GraphState { nodes: Vec::new(), index: StringHashMap::new() } };
        assert(graph@ =~= Map::<Seq<u8>, NodeModel>::empty());
        graph
    }

    fn take_parts(&mut self) -> (parts: (Vec<Node>, StringHashMap<usize>))
        ensures
            parts.0 == old(self).state.nodes,
            parts.1 == old(self).state.index,
            nodes_valid(node_entries(parts.0@)),
            index_matches(parts.1@, node_ids(parts.0@)),
    {
        proof {
            use_type_invariant(&*self);
        }
        let mut state = GraphState { nodes: Vec::new(), index: StringHashMap::new() };
        core::mem::swap(&mut self.state, &mut state);
        (state.nodes, state.index)
    }

    fn put_parts(&mut self, nodes: Vec<Node>, index: StringHashMap<usize>)
        requires
            nodes_valid(node_entries(nodes@)),
            index_matches(index@, node_ids(nodes@)),
        ensures
            final(self).state.nodes == nodes,
            final(self).state.index == index,
    {
        self.state = GraphState { nodes, index };
    }

    /// The place of the node under `id`.
    fn find(&self, id: &str) -> (found: Option<usize>)
        ensures
            nodes_valid(self.entries()),
            match found {
                Some(i) => i < self.entries().len() && self.entries()[i as int].0 == utf8(id@),
                None => !has_key(self.entries(), utf8(id@)),
            },
    {
        proof {
            use_type_invariant(self);
        }
        let ghost ids = node_ids(self.state.nodes@);
        match self.state.index.get(id) {
            Some(place) => {
                proof {
                    assert(ids[*place as int] == id@);
                }
                Some(*place)
            },
            None => {
                proof {
                    if has_key(self.entries(), utf8(id@)) {
                        let j = key_index(self.entries(), utf8(id@));
                        crate::text::lemma_utf8_injective(self.state.nodes@[j].id@, id@);
                        assert(ids[j] == id@);
                    }
                }
                None
            },
        }
    }

    /// The number of nodes.
    pub fn node_count(&self) -> (n: usize)
        ensures
            n == self.entries().len(),
            nodes_valid(self.entries()),
    {
        proof {
            use_type_invariant(self);
        }
        self.state.nodes.len()
    }

    /// The node at `index` of the order in which the nodes are kept.
    pub fn node_at(&self, index: usize) -> (node: &Node)
        requires
            index < self.entries().len(),
        ensures
            (utf8(node.id@), node.model()) == self.entries()[index as int],
    {
        &self.state.nodes[index]
    }

    /// Adds a node without edges and properties, unless the id is taken.
    pub fn add_node(&mut self, id: &str)
        ensures
            final(self)@ == with_node(old(self)@, utf8(id@)),
            edges_distinct(final(self)@),
    {
        proof {
            use_type_invariant(&*self);
        }
        let ghost before = self.entries();
        match self.find(id) {
            Some(i) => {
                proof {
                    lemma_pairs_map_at(before, i as int);
                }
            },
            None => {
                let (mut nodes, mut index) = self.take_parts();
                let ghost ids = node_ids(nodes@);
                let ghost places = index@;
                let place = nodes.len();
                let node = Node::new(id);
                proof {
                    crate::text::lemma_utf8_injective(node.id@, id@);
                    if places.contains_key(id@) {
                        let at = places[id@] as int;
                        assert(ids[at] == id@);
                        assert(before[at].0 == utf8(id@));
                    }
                }
                nodes.push(node);
                index.insert(id.to_owned(), place);
                proof {
                    lemma_pairs_map_push(before, utf8(id@), empty_node());
                    assert(node_entries(nodes@) =~= before.push((utf8(id@), empty_node())));
                    assert(node_ids(nodes@) =~= ids.push(id@));
                    assert forall|i: int| 0 <= i < ids.len() implies ids[i] != id@ by {
                        assert(places.contains_key(ids[i]));
                    }
                }
                self.put_parts(nodes, index);
            },
        }
        proof {
            lemma_valid_nodes_give_distinct_edges(self.entries());
        }
    }

    /// Whether there is a node under `id`.
    pub fn has_node(&self, id: &str) -> (found: bool)
        ensures
            found == self@.contains_key(utf8(id@)),
    {
        proof {
            use_type_invariant(self);
        }
        match self.find(id) {
            Some(i) => {
                proof {
                    lemma_pairs_map_at(self.entries(), i as int);
                }
                true
            },
            None => false,
        }
    }

    /// The node under `id`, if there is one.
    pub fn get_node(&self, id: &str) -> (found: Option<&Node>)
        ensures
            edges_distinct(self@),
            match found {
                Some(node) => self@.contains_key(utf8(id@)) && node.model() == self@[utf8(id@)]
                    && utf8(node.id@) == utf8(id@),
                None => !self@.contains_key(utf8(id@)),
            },
    {
        proof {
            use_type_invariant(self);
            lemma_valid_nodes_give_distinct_edges(self.entries());
        }
        match self.find(id) {
            Some(i) => {
                proof {
                    lemma_pairs_map_at(self.entries(), i as int);
                }
                Some(&self.state.nodes[i])
            },
            None => None,
        }
    }

    /// Whether there is an edge from `from` to `to`.
    pub fn has_edge(&self, from: &str, to: &str) -> (found: bool)
        ensures
            found == edge_in(self@, utf8(from@), utf8(to@)),
    {
        match self.get_node(from) {
            Some(node) => edge_position(&node.neighbors, to).is_some(),
            None => false,
        }
    }

    /// The `type` property of the edge from `from` to `to`, where there is
    /// such an edge and it has one.
    pub fn edge_type(&self, from: &str, to: &str) -> (kind: Option<&str>)
        ensures
            match kind {
                Some(text) => edge_in(self@, utf8(from@), utf8(to@)) && edge_data(
                    self@,
                    utf8(from@),
                    utf8(to@),
                ).contains_key(utf8("type"@)) && edge_data(self@, utf8(from@), utf8(to@))[utf8(
                    "type"@,
                )] == utf8(text@),
                None => !edge_in(self@, utf8(from@), utf8(to@)) || !edge_data(
                    self@,
                    utf8(from@),
                    utf8(to@),
                ).contains_key(utf8("type"@)),
            },
    {
        match self.get_node(from) {
            Some(node) => match edge_position(&node.neighbors, to) {
                Some(i) => {
                    proof {
                        assert(distinct_keys(self@[utf8(from@)].edges));
                        lemma_pairs_map_at(edge_models(node.neighbors@), i as int);
                    }
                    match node.neighbors[i].data.get("type") {
                        Some(text) => Some(text.as_str()),
                        None => None,
                    }
                },
                None => None,
            },
            None => None,
        }
    }

    /// Adds an edge without properties from `from` to `to`, where `from` is a
    /// node and has no edge to `to` yet.
    pub fn add_edge(&mut self, from: &str, to: &str)
        ensures
            final(self)@ == with_edge(old(self)@, utf8(from@), utf8(to@)),
            edges_distinct(final(self)@),
    {
        proof {
            use_type_invariant(&*self);
        }
        let ghost before = self.entries();
        match self.find(from) {
            Some(i) => {
                proof {
                    lemma_pairs_map_at(before, i as int);
                }
                if edge_position(&self.state.nodes[i].neighbors, to).is_none() {
                    let (mut nodes, index) = self.take_parts();
                    let ghost ids = node_ids(nodes@);
                    let ghost edges = before[i as int].1.edges;
                    nodes[i].neighbors.push(Edge::new(to));
                    proof {
                        let grown = NodeModel {
                            edges: edges.push((utf8(to@), Map::empty())),
                            data: before[i as int].1.data,
                        };
                        assert(edge_models(nodes@[i as int].neighbors@) =~= grown.edges);
                        lemma_pairs_map_push(edges, utf8(to@), Map::empty());
                        lemma_pairs_map_update(before, i as int, grown);
                        assert(node_entries(nodes@) =~= before.update(
                            i as int,
                            (utf8(from@), grown),
                        ));
                    }
                    proof {
                        assert(node_ids(nodes@) =~= ids);
                    }
                    self.put_parts(nodes, index);
                }
            },
            None => {},
        }
        proof {
            lemma_valid_nodes_give_distinct_edges(self.entries());
        }
    }

    /// Sets a property of the node `id`, where there is such a node.
    pub fn set_node_data(&mut self, id: &str, key: &str, value: &str)
        ensures
            final(self)@ == with_node_data(old(self)@, utf8(id@), utf8(key@), utf8(value@)),
            edges_distinct(final(self)@),
    {
        proof {
            use_type_invariant(&*self);
        }
        let ghost before = self.entries();
        match self.find(id) {
            Some(i) => {
                let (mut nodes, index) = self.take_parts();
                let ghost ids = node_ids(nodes@);
                nodes[i].data.insert(key.to_owned(), value.to_owned());
                proof {
                    lemma_pairs_map_at(before, i as int);
                    let changed = NodeModel {
                        edges: before[i as int].1.edges,
                        data: before[i as int].1.data.insert(utf8(key@), utf8(value@)),
                    };
                    lemma_pairs_map_update(before, i as int, changed);
                    assert(node_entries(nodes@) =~= before.update(
                        i as int,
                        (utf8(id@), changed),
                    ));
                }
                proof {
                    assert(node_ids(nodes@) =~= ids);
                }
                self.put_parts(nodes, index);
            },
            None => {},
        }
        proof {
            lemma_valid_nodes_give_distinct_edges(self.entries());
        }
    }

    /// Sets a property of the edge from `from` to `to`, where there is such
    /// an edge.
    pub fn set_edge_data(&mut self, from: &str, to: &str, key: &str, value: &str)
        ensures
            final(self)@ == with_edge_data(
                old(self)@,
                utf8(from@),
                utf8(to@),
                utf8(key@),
                utf8(value@),
            ),
            edges_distinct(final(self)@),
    {
        proof {
            use_type_invariant(&*self);
        }
        let ghost before = self.entries();
        match self.find(from) {
            Some(i) => {
                proof {
                    lemma_pairs_map_at(before, i as int);
                }
                match edge_position(&self.state.nodes[i].neighbors, to) {
                    Some(j) => {
                        let ghost edges = before[i as int].1.edges;
                        let (mut nodes, index) = self.take_parts();
                        let ghost ids = node_ids(nodes@);
                        nodes[i].neighbors[j].data.insert(key.to_owned(), value.to_owned());
                        proof {
                            lemma_pairs_map_at(edges, j as int);
                            let data = edges[j as int].1.insert(utf8(key@), utf8(value@));
                            let changed = NodeModel {
                                edges: edges.update(j as int, (utf8(to@), data)),
                                data: before[i as int].1.data,
                            };
                            assert(edge_models(nodes@[i as int].neighbors@) =~= changed.edges);
                            lemma_pairs_map_update(edges, j as int, data);
                            lemma_pairs_map_update(before, i as int, changed);
                            assert(node_entries(nodes@) =~= before.update(
                                i as int,
                                (utf8(from@), changed),
                            ));
                        }
                        proof {
                            assert(node_ids(nodes@) =~= ids);
                        }
                        self.put_parts(nodes, index);
                    },
                    None => {},
                }
            },
            None => {},
        }
        proof {
            lemma_valid_nodes_give_distinct_edges(self.entries());
        }
    }

    /// Removes the edge from `from` to `to`, where there is one.
    pub fn remove_edge(&mut self, from: &str, to: &str)
        ensures
            final(self)@ == without_edge(old(self)@, utf8(from@), utf8(to@)),
            edges_distinct(old(self)@),
            edges_distinct(final(self)@),
    {
        proof {
            use_type_invariant(&*self);
            lemma_valid_nodes_give_distinct_edges(self.entries());
        }
        let ghost before = self.entries();
        match self.find(from) {
            Some(i) => {
                proof {
                    lemma_pairs_map_at(before, i as int);
                }
                let ghost edges = before[i as int].1.edges;
                match edge_position(&self.state.nodes[i].neighbors, to) {
                    Some(j) => {
                        let (mut nodes, index) = self.take_parts();
                        let ghost ids = node_ids(nodes@);
                        nodes[i].neighbors.remove(j);
                        proof {
                            lemma_pairs_map_remove(edges, j as int);
                            let changed = NodeModel {
                                edges: edges.remove(j as int),
                                data: before[i as int].1.data,
                            };
                            assert(edge_models(nodes@[i as int].neighbors@) =~= changed.edges);
                            lemma_pairs_map_update(before, i as int, changed);
                            assert(node_entries(nodes@) =~= before.update(
                                i as int,
                                (utf8(from@), changed),
                            ));
                        }
                        proof {
                            assert(node_ids(nodes@) =~= ids);
                        }
                        self.put_parts(nodes, index);
                    },
                    None => {
                        proof {
                            assert(self@ =~= without_edge(self@, utf8(from@), utf8(to@)));
                        }
                    },
                }
            },
            None => {},
        }
        proof {
            lemma_valid_nodes_give_distinct_edges(self.entries());
        }
    }
    /// Removes the node `id` and every edge that leads to it.
    pub fn remove_node(&mut self, id: &str)
        ensures
            final(self)@ == without_node(old(self)@, utf8(id@)),
            edges_distinct(final(self)@),
    {
        proof {
            use_type_invariant(&*self);
        }
        let ghost before = self.entries();
        let found = self.find(id);
        let (mut nodes, index) = self.take_parts();
        let removed = found.is_some();
        match found {
            Some(i) => {
                nodes.remove(i);
                proof {
                    lemma_pairs_map_remove(before, i as int);
                    assert(node_entries(nodes@) =~= before.remove(i as int));
                    assert forall|a: int| 0 <= a < before.remove(i as int).len() implies distinct_keys(
                        (#[trigger] before.remove(i as int)[a]).1.edges,
                    ) by {
                        assert(before.remove(i as int)[a] == before[if a < i {
                            a
                        } else {
                            a + 1
                        }]);
                    }
                }
            },
            None => {},
        }
        let ghost kept = node_entries(nodes@);
        let ghost ids_after = node_ids(nodes@);
        let mut k: usize = 0;
        while k < nodes.len()
            invariant
                0 <= k <= nodes.len(),
                nodes.len() == kept.len(),
                node_ids(nodes@) == ids_after,
                nodes_valid(kept),
                forall|a: int|
                    0 <= a < kept.len() ==> {
                        &&& (#[trigger] node_entries(nodes@)[a]).0 == kept[a].0
                        &&& node_entries(nodes@)[a].1.data == kept[a].1.data
                        &&& node_entries(nodes@)[a].1.edges == if a < k {
                            without_key(kept[a].1.edges, utf8(id@))
                        } else {
                            kept[a].1.edges
                        }
                    },
            decreases nodes.len() - k,
        {
            let ghost edges = kept[k as int].1.edges;
            let ghost earlier = node_entries(nodes@);
            assert(earlier[k as int].1.edges == edges);
            assert(edge_models(nodes@[k as int].neighbors@) == edges);
            match edge_position(&nodes[k].neighbors, id) {
                Some(j) => {
                    nodes[k].neighbors.remove(j);
                    proof {
                        lemma_pairs_map_remove(edges, j as int);
                        assert(edge_models(nodes@[k as int].neighbors@) =~= edges.remove(j as int));
                    }
                },
                None => {},
            }
            proof {
                let now = node_entries(nodes@);
                assert(now[k as int].1.edges == without_key(edges, utf8(id@)));
                assert(now[k as int].0 == earlier[k as int].0);
                assert(now[k as int].1.data == earlier[k as int].1.data);
                assert forall|a: int| 0 <= a < kept.len() implies {
                    &&& (#[trigger] now[a]).0 == kept[a].0
                    &&& now[a].1.data == kept[a].1.data
                    &&& now[a].1.edges == if a < k + 1 {
                        without_key(kept[a].1.edges, utf8(id@))
                    } else {
                        kept[a].1.edges
                    }
                } by {
                    if a != k {
                        assert(now[a] == earlier[a]);
                    }
                }
            }
            k += 1;
        }
        proof {
            let after = node_entries(nodes@);
            let graph = pairs_map(before);
            assert forall|a: int, b: int| 0 <= a < b < after.len() implies after[a].0
                != after[b].0 by {
                assert(after[a].0 == kept[a].0 && after[b].0 == kept[b].0);
            }
            assert forall|a: int| 0 <= a < after.len() implies distinct_keys(
                (#[trigger] after[a]).1.edges,
            ) by {
                let edges = kept[a].1.edges;
                assert(distinct_keys(edges));
                if has_key(edges, utf8(id@)) {
                    lemma_pairs_map_remove(edges, key_index(edges, utf8(id@)));
                }
            }
            assert(pairs_map(kept) == graph.remove(utf8(id@))) by {
                if has_key(before, utf8(id@)) {
                } else {
                    assert(graph.remove(utf8(id@)) =~= graph);
                }
            }
            assert forall|key: Seq<u8>| has_key(after, key) <==> has_key(kept, key) by {
                if has_key(after, key) {
                    let a = key_index(after, key);
                    assert(kept[a].0 == key);
                }
                if has_key(kept, key) {
                    let a = key_index(kept, key);
                    assert(after[a].0 == key);
                }
            }
            assert forall|key: Seq<u8>| has_key(after, key) implies pairs_map(after)[key]
                == without_node(graph, utf8(id@))[key] by {
                let a = key_index(after, key);
                lemma_pairs_map_at(after, a);
                lemma_pairs_map_at(kept, a);
            }
            assert forall|key: Seq<u8>| pairs_map(after).contains_key(key) <==> without_node(
                graph,
                utf8(id@),
            ).contains_key(key) by {
                assert(pairs_map(kept).contains_key(key) <==> has_key(kept, key));
                assert(graph.remove(utf8(id@)).contains_key(key) <==> (graph.contains_key(key)
                    && key != utf8(id@)));
            }
            assert forall|key: Seq<u8>| pairs_map(after).contains_key(key) implies pairs_map(
                after,
            )[key] == without_node(graph, utf8(id@))[key] by {
                assert(has_key(after, key));
            }
            assert(pairs_map(after) =~= without_node(graph, utf8(id@)));
            lemma_valid_nodes_give_distinct_edges(after);
            assert(node_ids(nodes@) =~= ids_after);
        }
        let index = if removed {
            index_of_nodes(&nodes)
        } else {
            index
        };
        self.put_parts(nodes, index);
    }

    /// Whether some path of edges leads from `start` to `end`.
    pub fn exist_path(&self, start: &str, end: &str) -> (found: bool)
        ensures
            found == reachable(self@, utf8(start@), utf8(end@)),
    {
        self.dfs(start, end)
    }

    /// Searches depth first from `current` for `target`. An id counts as
    /// reached from itself; a node is entered once.
    pub fn dfs(&self, current: &str, target: &str) -> (found: bool)
        ensures
            found == reachable(self@, utf8(current@), utf8(target@)),
    {
        proof {
            use_type_invariant(self);
        }
        let ghost entries = self.entries();
        let ghost graph = self@;
        let ghost goal = utf8(target@);
        if str_eq(current, target) {
            proof {
                lemma_reachable_self(graph, goal);
            }
            return true;
        }
        let start = match self.find(current) {
            Some(start) => start,
            None => {
                proof {
                    lemma_reachable_from_absent(graph, utf8(current@), goal);
                }
                return false;
            },
        };
        let count = self.state.nodes.len();
        let mut visited: Vec<bool> = Vec::new();
        while visited.len() < count
            invariant
                visited.len() <= count,
                forall|v: int| 0 <= v < visited.len() ==> !visited@[v],
            decreases count - visited.len(),
        {
            visited.push(false);
        }
        visited.set(start, true);
        let mut stack: Vec<usize> = Vec::new();
        stack.push(start);
        proof {
            lemma_pairs_map_at(entries, start as int);
            lemma_reachable_self(graph, entries[start as int].0);
            assert(stack@[0] == start);
            assert(on_stack(stack@, start as int));
        }
        while stack.len() > 0
            invariant
                entries == self.entries(),
                graph == pairs_map(entries),
                goal == utf8(target@),
                nodes_valid(entries),
                count == entries.len(),
                visited.len() == count,
                0 <= start < count,
                entries[start as int].0 == utf8(current@),
                entries[start as int].0 != goal,
                visited@[start as int],
                forall|k: int| 0 <= k < stack.len() ==> stack@[k] < count && visited@[stack@[k] as int],
                forall|v: int|
                    0 <= v < count && visited@[v] ==> reachable(
                        graph,
                        entries[start as int].0,
                        (#[trigger] entries[v]).0,
                    ),
                forall|v: int|
                    0 <= v < count && visited@[v] && !on_stack(stack@, v) ==> settled(
                        entries,
                        visited@,
                        goal,
                        v,
                    ),
            decreases unvisited(visited@) + stack.len(),
        {
            let ghost budget = unvisited(visited@) + stack.len();
            let ghost fuller = stack@;
            let u = stack.pop().unwrap();
            proof {
                assert(fuller[fuller.len() - 1] == u);
                assert forall|v: int|
                    0 <= v < count && visited@[v] && v != u && !on_stack(stack@, v) implies settled(
                    entries,
                    visited@,
                    goal,
                    v,
                ) by {
                    if on_stack(fuller, v) {
                        let k = choose|k: int| 0 <= k < fuller.len() && fuller[k] == v;
                        assert(stack@[k] == v);
                    }
                }
            }
            let node = &self.state.nodes[u];
            let mut j: usize = 0;
            while j < node.neighbors.len()
                invariant
                    entries == self.entries(),
                    graph == pairs_map(entries),
                    goal == utf8(target@),
                    nodes_valid(entries),
                    count == entries.len(),
                    visited.len() == count,
                    0 <= start < count,
                    entries[start as int].0 == utf8(current@),
                    entries[start as int].0 != goal,
                    visited@[start as int],
                    0 <= u < count,
                    visited@[u as int],
                    0 <= j <= node.neighbors.len(),
                    edge_models(node.neighbors@) == entries[u as int].1.edges,
                    unvisited(visited@) + stack.len() + 1 == budget,
                    forall|k: int|
                        0 <= k < stack.len() ==> stack@[k] < count && visited@[stack@[k] as int],
                    forall|v: int|
                        0 <= v < count && visited@[v] ==> reachable(
                            graph,
                            entries[start as int].0,
                            (#[trigger] entries[v]).0,
                        ),
                    forall|v: int|
                        0 <= v < count && visited@[v] && v != u && !on_stack(stack@, v) ==> settled(
                            entries,
                            visited@,
                            goal,
                            v,
                        ),
                    forall|e: int|
                        0 <= e < j ==> edge_settled(
                            entries,
                            visited@,
                            goal,
                            (#[trigger] entries[u as int].1.edges[e]).0,
                        ),
                decreases node.neighbors.len() - j,
            {
                let to = node.neighbors[j].to.as_str();
                let ghost edges = entries[u as int].1.edges;
                proof {
                    assert(edges[j as int].0 == utf8(to@));
                    lemma_pairs_map_at(entries, u as int);
                    assert(edge_in(graph, entries[u as int].0, utf8(to@)));
                }
                if str_eq(to, target) {
                    proof {
                        lemma_reachable_step(
                            graph,
                            entries[start as int].0,
                            entries[u as int].0,
                            goal,
                        );
                    }
                    return true;
                }
                match self.find(to) {
                    Some(w) => {
                        proof {
                            lemma_pairs_map_at(entries, w as int);
                            lemma_reachable_step(
                                graph,
                                entries[start as int].0,
                                entries[u as int].0,
                                entries[w as int].0,
                            );
                        }
                        if !visited[w] {
                            let ghost seen = visited@;
                            let ghost lower = stack@;
                            visited.set(w, true);
                            stack.push(w);
                            proof {
                                lemma_unvisited_mark(seen, w as int);
                                assert forall|v: int|
                                    0 <= v < count && visited@[v] && v != u && !on_stack(
                                        stack@,
                                        v,
                                    ) implies settled(entries, visited@, goal, v) by {
                                    if v == w {
                                        assert(stack@[lower.len() as int] == w);
                                    }
                                    if on_stack(lower, v) {
                                        let k = choose|k: int|
                                            0 <= k < lower.len() && lower[k] == v;
                                        assert(stack@[k] == v);
                                    }
                                    lemma_settled_stays(entries, seen, goal, v, w as int);
                                }
                                assert forall|e: int| 0 <= e < j implies edge_settled(
                                    entries,
                                    visited@,
                                    goal,
                                    (#[trigger] entries[u as int].1.edges[e]).0,
                                ) by {
                                    lemma_edge_settled_stays(
                                        entries,
                                        seen,
                                        goal,
                                        entries[u as int].1.edges[e].0,
                                        w as int,
                                    );
                                }
                            }
                        }
                        proof {
                            assert forall|x: int|
                                0 <= x < entries.len() && (#[trigger] entries[x]).0 == utf8(
                                    to@,
                                ) implies visited@[x] by {
                                if x != w {
                                    assert(entries[x].0 == entries[w as int].0);
                                }
                            }
                        }
                    },
                    None => {
                        proof {
                            assert forall|x: int|
                                0 <= x < entries.len() && (#[trigger] entries[x]).0 == utf8(
                                    to@,
                                ) implies visited@[x] by {
                                assert(has_key(entries, utf8(to@)));
                            }
                        }
                    },
                }
                proof {
                    assert(edge_settled(entries, visited@, goal, edges[j as int].0));
                }
                j += 1;
            }
            proof {
                assert(settled(entries, visited@, goal, u as int));
            }
        }
        proof {
            assert forall|v: int| 0 <= v < entries.len() && visited@[v] implies settled(
                entries,
                visited@,
                goal,
                v,
            ) by {
                if on_stack(stack@, v) {
                }
            }
            lemma_settled_unreachable(entries, visited@, goal, start as int);
        }
        false
    }
}

/// The index `v` is on the stack.
spec fn on_stack(stack: Seq<usize>, v: int) -> bool {
    exists|k: int| 0 <= k < stack.len() && #[trigger] stack[k] == v
}

} // verus!
