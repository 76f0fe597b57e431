use elo::graph::{Edge, Graph, Node};
use elo::lru::{decode_component_cached, LruCache};
use elo::props::PropertyMap;
use elo::schema::{
    deserialize_schema_fields, is_active_data, is_active_value, normalize_fields,
    parse_entity_kind, serialize_schema_fields, EntityKind, SchemaCache,
};
use elo::seed::Lcg;

fn props(pairs: &[(&str, &str)]) -> PropertyMap {
    let mut map = PropertyMap::new();
    for (key, value) in pairs {
        map.insert(key.to_string(), value.to_string());
    }
    map
}

#[test]
fn property_map_keeps_first_positions_and_last_values() {
    let mut map = PropertyMap::new();
    assert_eq!(map.len(), 0);
    map.insert("a".to_string(), "1".to_string());
    map.insert("b".to_string(), "2".to_string());
    map.insert("a".to_string(), "3".to_string());
    assert_eq!(map.len(), 2);
    assert_eq!(map.key_at(0), "a");
    assert_eq!(map.value_at(0), "3");
    assert_eq!(map.key_at(1), "b");
    assert_eq!(map.get("b").map(|s| s.as_str()), Some("2"));
    assert!(map.get("c").is_none());
    assert!(map.contains_key("a"));
    let copy = map.clone();
    assert_eq!(copy.len(), 2);
    assert_eq!(copy.get("a").map(|s| s.as_str()), Some("3"));
}

#[test]
fn new_nodes_and_edges_are_empty() {
    let node = Node::new("n");
    assert_eq!(node.id, "n");
    assert!(node.neighbors.is_empty());
    assert_eq!(node.data.len(), 0);
    let edge = Edge::new("t");
    assert_eq!(edge.to, "t");
    assert_eq!(edge.data.len(), 0);
}

#[test]
fn graph_adds_nodes_and_edges_once() {
    let mut graph = Graph::new();
    graph.add_node("a");
    graph.add_node("b");
    graph.add_node("a");
    assert_eq!(graph.node_count(), 2);
    graph.add_edge("a", "b");
    graph.add_edge("a", "b");
    graph.add_edge("missing", "b");
    assert_eq!(graph.get_node("a").unwrap().neighbors.len(), 1);
    assert!(graph.has_edge("a", "b"));
    assert!(!graph.has_edge("b", "a"));
    assert!(!graph.has_edge("missing", "b"));
    assert!(graph.has_node("a"));
    assert!(!graph.has_node("missing"));
    assert!(graph.get_node("missing").is_none());
}

#[test]
fn graph_keeps_properties_of_nodes_and_edges() {
    let mut graph = Graph::new();
    graph.add_node("a");
    graph.add_node("b");
    graph.add_edge("a", "b");
    graph.set_node_data("a", "type", "User");
    graph.set_node_data("a", "type", "Team");
    graph.set_node_data("missing", "type", "User");
    graph.set_edge_data("a", "b", "type", "block");
    graph.set_edge_data("a", "b", "weight", "2.5");
    graph.set_edge_data("b", "a", "type", "x");
    assert_eq!(graph.get_node("a").unwrap().data.get("type").map(|s| s.as_str()), Some("Team"));
    assert_eq!(graph.edge_type("a", "b"), Some("block"));
    assert_eq!(graph.edge_type("b", "a"), None);
    let edge = &graph.get_node("a").unwrap().neighbors[0];
    assert_eq!(edge.data.get("weight").map(|s| s.as_str()), Some("2.5"));
    graph.add_edge("b", "a");
    assert_eq!(graph.edge_type("b", "a"), None);
}

#[test]
fn removing_a_node_detaches_its_incoming_edges() {
    let mut graph = Graph::new();
    for id in ["a", "b", "c"] {
        graph.add_node(id);
    }
    graph.add_edge("a", "b");
    graph.add_edge("a", "c");
    graph.add_edge("c", "b");
    graph.add_edge("b", "a");
    graph.remove_node("b");
    assert!(!graph.has_node("b"));
    assert!(!graph.has_edge("a", "b"));
    assert!(!graph.has_edge("c", "b"));
    assert!(graph.has_edge("a", "c"));
    assert_eq!(graph.node_count(), 2);
    graph.remove_edge("a", "c");
    assert!(!graph.has_edge("a", "c"));
    graph.remove_edge("a", "c");
    graph.remove_node("missing");
    assert_eq!(graph.node_count(), 2);
}

#[test]
fn paths_follow_the_direction_of_the_edges() {
    let mut graph = Graph::new();
    for id in ["a", "b", "c", "d", "e"] {
        graph.add_node(id);
    }
    graph.add_edge("a", "b");
    graph.add_edge("b", "c");
    graph.add_edge("c", "a");
    graph.add_edge("c", "d");
    graph.add_edge("e", "a");
    assert!(graph.exist_path("a", "d"));
    assert!(graph.exist_path("e", "d"));
    assert!(!graph.exist_path("d", "a"));
    assert!(!graph.exist_path("a", "e"));
    assert!(graph.exist_path("a", "a"));
    assert!(graph.exist_path("ghost", "ghost"));
    assert!(!graph.exist_path("ghost", "a"));
    assert!(!graph.exist_path("a", "ghost"));
    assert!(graph.dfs("b", "a"));
    graph.add_edge("d", "ghost");
    assert!(graph.exist_path("a", "ghost"));
    graph.remove_node("c");
    assert!(!graph.exist_path("a", "d"));
}

#[test]
fn path_search_ends_on_long_cycles() {
    let mut graph = Graph::new();
    let count = 300;
    for i in 0..count {
        graph.add_node(&format!("n{}", i));
    }
    for i in 0..count {
        graph.add_edge(&format!("n{}", i), &format!("n{}", (i + 1) % count));
    }
    assert!(graph.exist_path("n0", "n299"));
    assert!(!graph.exist_path("n0", "outside"));
}

#[test]
fn lru_drops_the_least_recently_used_entry() {
    let mut cache = LruCache::new(2);
    cache.insert("a".to_string(), "1".to_string());
    cache.insert("b".to_string(), "2".to_string());
    assert_eq!(cache.get("a").as_deref(), Some("1"));
    cache.insert("c".to_string(), "3".to_string());
    assert_eq!(cache.len(), 2);
    assert_eq!(cache.get("b"), None);
    assert_eq!(cache.get("a").as_deref(), Some("1"));
    assert_eq!(cache.get("c").as_deref(), Some("3"));
    cache.insert("a".to_string(), "4".to_string());
    cache.insert("d".to_string(), "5".to_string());
    assert_eq!(cache.get("c"), None);
    assert_eq!(cache.get("a").as_deref(), Some("4"));
    cache.touch("a");
    cache.touch("missing");
    assert_eq!(cache.len(), 2);
}

#[test]
fn lru_keeps_at_least_one_entry() {
    let mut cache = LruCache::new(0);
    cache.insert("a".to_string(), "1".to_string());
    assert_eq!(cache.len(), 1);
    cache.insert("b".to_string(), "2".to_string());
    assert_eq!(cache.len(), 1);
    assert_eq!(cache.get("a"), None);
    assert_eq!(cache.get("b").as_deref(), Some("2"));
}

#[test]
fn cached_decoding_agrees_with_decoding() {
    let mut cache = LruCache::new(4);
    assert_eq!(decode_component_cached("a%1Fb", &mut cache).as_deref(), Some("a\x1fb"));
    assert_eq!(cache.len(), 1);
    assert_eq!(decode_component_cached("a%1Fb", &mut cache).as_deref(), Some("a\x1fb"));
    assert_eq!(cache.len(), 1);
    assert_eq!(decode_component_cached("%zz", &mut cache), None);
    assert_eq!(cache.len(), 1);
}

#[test]
fn whitelist_decides_what_is_kept_in_memory() {
    let mut schema = SchemaCache::new();
    assert!(schema.node_in_memory("anything"));
    assert!(schema.edge_in_memory("anything"));
    schema.node_fields = vec!["type".to_string(), "rating".to_string()];
    schema.node_defined = true;
    assert!(schema.node_in_memory("type"));
    assert!(!schema.node_in_memory("extra"));
    assert!(schema.edge_in_memory("extra"));
    let data = props(&[("type", "Team"), ("rating", "600"), ("extra", "x")]);
    let kept = schema.filter_node_data(&data);
    assert_eq!(kept.len(), 2);
    assert!(kept.get("extra").is_none());
    assert_eq!(kept.get("rating").map(|s| s.as_str()), Some("600"));
    let edge_kept = schema.filter_edge_data(&data);
    assert_eq!(edge_kept.len(), 3);
    let copy = schema.clone();
    assert!(copy.node_defined);
    assert_eq!(copy.node_fields, schema.node_fields);
    let fresh = SchemaCache::default();
    assert!(!fresh.node_defined && !fresh.edge_defined);
}

#[test]
fn stored_whitelists_are_sorted_encoded_and_unique() {
    let fields = vec!["type".to_string(), "a%b".to_string(), "type".to_string(), "rating".to_string()];
    let stored = serialize_schema_fields(&fields);
    assert_eq!(stored, "a%25b\x1frating\x1ftype");
    assert_eq!(
        deserialize_schema_fields(&stored),
        vec!["a%b".to_string(), "rating".to_string(), "type".to_string()]
    );
    assert!(deserialize_schema_fields("").is_empty());
    assert_eq!(deserialize_schema_fields("a\x1f\x1f%zz\x1fb"), vec!["a".to_string(), "b".to_string()]);
    assert_eq!(serialize_schema_fields(&[]), "");
}

#[test]
fn whitelist_fields_are_trimmed_sorted_and_unique() {
    let fields = vec![" type ".to_string(), "".to_string(), "rating".to_string(), "type".to_string(), "  ".to_string()];
    assert_eq!(normalize_fields(&fields), vec!["rating".to_string(), "type".to_string()]);
    assert!(normalize_fields(&vec!["  ".to_string()]).is_empty());
    assert_eq!(parse_entity_kind("node"), Some(EntityKind::Node));
    assert_eq!(parse_entity_kind("edge"), Some(EntityKind::Edge));
    assert_eq!(parse_entity_kind(" Node "), None);
    assert_eq!(parse_entity_kind("EDGE"), None);
    assert_eq!(parse_entity_kind("nodes"), None);
}

#[test]
fn status_decides_whether_an_entity_is_active() {
    assert!(is_active_value(None));
    assert!(is_active_value(Some(&"active".to_string())));
    assert!(!is_active_value(Some(&"deleted".to_string())));
    assert!(!is_active_value(Some(&"Active".to_string())));
    assert!(is_active_data(&props(&[("type", "x")])));
    assert!(is_active_data(&props(&[("status", "active")])));
    assert!(!is_active_data(&props(&[("status", "deleted")])));
}

#[test]
fn generator_repeats_for_a_seed() {
    let mut a = Lcg::new(42);
    let mut b = Lcg::new(42);
    let first = a.next_u32();
    assert_eq!(first, b.next_u32());
    assert_eq!(first, ((42u64.wrapping_mul(6364136223846793005).wrapping_add(1)) >> 32) as u32);
    assert_eq!(a.gen_range(0), 0);
    assert_eq!(b.gen_range(10), a.gen_range(10));
    for _ in 0..100 {
        assert!(a.gen_range(7) < 7);
    }
}

#[test]
fn large_graphs_are_searched_quickly() {
    let mut graph = Graph::new();
    let count = 20000;
    for i in 0..count {
        graph.add_node(&format!("n{}", i));
    }
    for i in 0..count - 1 {
        graph.add_edge(&format!("n{}", i), &format!("n{}", i + 1));
        graph.add_edge(&format!("n{}", i), &format!("n{}", (i * 7 + 3) % count));
    }
    assert!(graph.exist_path("n0", &format!("n{}", count - 1)));
    assert!(!graph.exist_path(&format!("n{}", count - 1), "n0"));
    assert!(!graph.exist_path("n0", "outside"));
    assert_eq!(graph.node_count(), count);
    graph.remove_node("n5");
    assert!(!graph.has_node("n5"));
    assert!(graph.has_node("n19999"));
    assert_eq!(graph.get_node("n19999").map(|n| n.id.as_str()), Some("n19999"));
}

#[test]
fn decode_cache_stays_within_its_capacity() {
    let mut cache = LruCache::new(512);
    for i in 0..20000 {
        let key = format!("k%25{}", i);
        assert_eq!(decode_component_cached(&key, &mut cache), Some(format!("k%{}", i)));
    }
    assert_eq!(cache.len(), 512);
    assert_eq!(cache.get("k%250"), None);
    assert_eq!(cache.get("k%2519999").as_deref(), Some("k%19999"));
}
