use elo::graph::Graph;
use elo::groups::Groups;
use elo::idset::IdSet;
use elo::index::{stale_edge_key, stale_node_key};
use elo::loader::{cache_edge_row, cache_node_row, fields_of_row, linked_graph, schema_of_fields};
use elo::lru::LruCache;
use elo::props::PropertyMap;
use elo::query::{hydrated_item, kept_and_cut, listing_limit, Ranked};
use elo::reads::{
    add_if_active, add_row_edge, add_row_group, add_row_id, add_row_property,
    add_row_third_property,
};
use elo::recovery::{
    add_edge_entry, add_edge_if_missing, add_edge_if_touching, add_node_entry,
    add_node_if_missing, no_first_row, note_edge_status, note_node_status,
};
use elo::schema::SchemaCache;
use elo::service::{storage_failure, ServiceError};
use elo::store::row_of_walk;
use elo::views::{
    add_keyed_group, add_listed_edge, add_own_edge, add_own_group, add_own_property,
    add_source_edge, add_swept_edge, add_typed_edge, shown_if_listed, sorted_and_cut,
    wants_typed_edge, EdgeListView, EdgeView, NodeView,
};

fn row(key: &str, value: &str) -> (String, String) {
    (key.to_string(), value.to_string())
}

fn props(pairs: &[(&str, &str)]) -> PropertyMap {
    let mut map = PropertyMap::new();
    for (key, value) in pairs {
        map.insert(key.to_string(), value.to_string());
    }
    map
}

fn ids(items: &[&str]) -> IdSet {
    IdSet::from_list(&items.iter().map(|s| s.to_string()).collect())
}

fn node(id: &str) -> NodeView {
    NodeView { id: id.to_string(), data: PropertyMap::new(), edges: Vec::new() }
}

fn node_ids(nodes: &[NodeView]) -> Vec<&str> {
    nodes.iter().map(|n| n.id.as_str()).collect()
}

#[test]
fn a_walk_gives_the_row_under_its_prefix() {
    let got = row_of_walk(Some(Ok(row("a\x1fb", "1"))), "a\x1f").unwrap();
    assert_eq!(got, Some(row("a\x1fb", "1")));
}

#[test]
fn a_walk_ends_at_the_first_row_behind_its_prefix() {
    assert_eq!(row_of_walk(Some(Ok(row("b\x1fc", "1"))), "a\x1f").unwrap(), None);
    assert_eq!(row_of_walk(None, "a\x1f").unwrap(), None);
}

#[test]
fn a_table_without_a_first_row_is_empty() {
    assert!(no_first_row(None).unwrap());
    assert!(!no_first_row(Some(Ok(row("k", "v")))).unwrap());
}

#[test]
fn an_index_row_names_its_third_component() {
    let mut cache = LruCache::new(8);
    let mut found: Vec<String> = Vec::new();
    add_row_id(&row("type\x1fUser\x1fn%251", ""), &mut cache, &mut found);
    add_row_id(&row("type\x1fUser", ""), &mut cache, &mut found);
    add_row_id(&row("type\x1fUser\x1fn%ZZ", ""), &mut cache, &mut found);
    add_row_id(&row("type\x1fUser\x1fn2", ""), &mut cache, &mut found);
    assert_eq!(found, vec!["n%1".to_string(), "n2".to_string()]);
}

#[test]
fn an_edge_index_row_names_its_two_ends() {
    let mut cache = LruCache::new(8);
    let mut found: Vec<(String, String)> = Vec::new();
    add_row_edge(&row("type\x1fknows\x1fa\x1fb%25", ""), &mut cache, &mut found);
    add_row_edge(&row("type\x1fknows\x1fa", ""), &mut cache, &mut found);
    assert_eq!(found, vec![("a".to_string(), "b%".to_string())]);
}

#[test]
fn a_property_row_gives_its_key_and_value() {
    let mut cache = LruCache::new(8);
    let mut data = PropertyMap::new();
    add_row_property(row("n1\x1fname", "Ann"), &mut cache, &mut data);
    add_row_property(row("n1", "lost"), &mut cache, &mut data);
    add_row_property(row("n1\x1fname", "Bea"), &mut cache, &mut data);
    assert_eq!(data.len(), 1);
    assert_eq!(data.get("name"), Some(&"Bea".to_string()));
}

#[test]
fn an_edge_property_row_gives_its_third_component() {
    let mut cache = LruCache::new(8);
    let mut data = PropertyMap::new();
    add_row_third_property(row("a\x1fb\x1ftype", "knows"), &mut cache, &mut data);
    add_row_third_property(row("a\x1fb", "lost"), &mut cache, &mut data);
    assert_eq!(data.len(), 1);
    assert_eq!(data.get("type"), Some(&"knows".to_string()));
}

#[test]
fn edge_property_rows_are_grouped_by_target() {
    let mut cache = LruCache::new(8);
    let mut groups = Groups::new();
    add_row_group(row("a\x1fb\x1ftype", "knows"), &mut cache, &mut groups);
    add_row_group(row("a\x1fc\x1ftype", "likes"), &mut cache, &mut groups);
    add_row_group(row("a\x1fb\x1fweight", "2"), &mut cache, &mut groups);
    let b = groups.get_or_empty("b");
    assert_eq!(b.len(), 2);
    assert_eq!(b.get("weight"), Some(&"2".to_string()));
    assert_eq!(groups.get_or_empty("c").get("type"), Some(&"likes".to_string()));
    assert_eq!(groups.get_or_empty("d").len(), 0);
}

#[test]
fn only_active_properties_are_kept() {
    let mut found: Vec<(String, PropertyMap)> = Vec::new();
    add_if_active("n1", props(&[("status", "active")]), &mut found);
    add_if_active("n2", props(&[("status", "deleted")]), &mut found);
    add_if_active("n3", props(&[("name", "x")]), &mut found);
    let kept: Vec<&str> = found.iter().map(|f| f.0.as_str()).collect();
    assert_eq!(kept, vec!["n1", "n3"]);
}

#[test]
fn the_stale_entry_is_that_of_the_old_value() {
    assert_eq!(stale_node_key(&None, "n1", "type"), None);
    assert_eq!(
        stale_node_key(&Some("User".to_string()), "n%1", "type"),
        Some("type\x1fUser\x1fn%251".to_string())
    );
    assert_eq!(stale_edge_key(&None, "a", "b", "type"), None);
    assert_eq!(
        stale_edge_key(&Some("knows".to_string()), "a", "b", "type"),
        Some("type\x1fknows\x1fa\x1fb".to_string())
    );
}

#[test]
fn a_property_row_asks_for_its_index_entry() {
    let mut entries: Vec<String> = Vec::new();
    add_node_entry(&row("n1\x1ftype", "User"), &mut entries);
    add_node_entry(&row("n1", "lost"), &mut entries);
    add_edge_entry(&row("a\x1fb\x1ftype", "knows"), &mut entries);
    add_edge_entry(&row("a\x1fb", "lost"), &mut entries);
    assert_eq!(entries, vec!["type\x1fUser\x1fn1".to_string(), "type\x1fknows\x1fa\x1fb".to_string()]);
}

#[test]
fn status_rows_are_noted_by_their_owner() {
    let mut cache = LruCache::new(8);
    let mut nodes = IdSet::new();
    note_node_status(&row("n1\x1fstatus", "active"), &mut cache, &mut nodes);
    note_node_status(&row("n2\x1fname", "x"), &mut cache, &mut nodes);
    assert!(nodes.contains("n1"));
    assert!(!nodes.contains("n2"));
    let mut edges = IdSet::new();
    note_edge_status(&row("a\x1fb\x1fstatus", "deleted"), &mut cache, &mut edges);
    note_edge_status(&row("a\x1fc\x1ftype", "knows"), &mut cache, &mut edges);
    assert!(edges.contains("a\x1fb"));
    assert!(!edges.contains("a\x1fc"));
}

#[test]
fn rows_without_a_status_are_missing() {
    let mut cache = LruCache::new(8);
    let with_status = ids(&["n1", "a\x1fb"]);
    let mut nodes: Vec<String> = Vec::new();
    add_node_if_missing(&row("n1", ""), &mut cache, &with_status, &mut nodes);
    add_node_if_missing(&row("n2", ""), &mut cache, &with_status, &mut nodes);
    assert_eq!(nodes, vec!["n2".to_string()]);
    let mut edges: Vec<(String, String)> = Vec::new();
    add_edge_if_missing(&row("a\x1fb", ""), &mut cache, &with_status, &mut edges);
    add_edge_if_missing(&row("a\x1fc", ""), &mut cache, &with_status, &mut edges);
    assert_eq!(edges, vec![("a".to_string(), "c".to_string())]);
}

#[test]
fn an_edge_touches_a_node_at_either_end() {
    let mut cache = LruCache::new(8);
    let mut found: Vec<(String, String)> = Vec::new();
    add_edge_if_touching(&row("a\x1fb", ""), "a", &mut cache, &mut found);
    add_edge_if_touching(&row("c\x1fa", ""), "a", &mut cache, &mut found);
    add_edge_if_touching(&row("c\x1fd", ""), "a", &mut cache, &mut found);
    assert_eq!(
        found,
        vec![("a".to_string(), "b".to_string()), ("c".to_string(), "a".to_string())]
    );
}

#[test]
fn a_listing_shows_active_edges_to_active_nodes() {
    let mut cache = LruCache::new(8);
    let mut groups = Groups::new();
    groups.add("b", "type".to_string(), "knows".to_string());
    groups.add("c", "status".to_string(), "deleted".to_string());
    let active = ids(&["b", "c"]);
    let schema = SchemaCache::new();
    let mut views: Vec<EdgeView> = Vec::new();
    add_listed_edge(&row("a\x1fb", ""), &groups, &active, &schema, true, &mut cache, &mut views);
    add_listed_edge(&row("a\x1fc", ""), &groups, &active, &schema, true, &mut cache, &mut views);
    add_listed_edge(&row("a\x1fd", ""), &groups, &active, &schema, true, &mut cache, &mut views);
    assert_eq!(views.len(), 1);
    assert_eq!(views[0].to, "b");
    assert_eq!(views[0].data.get("type"), Some(&"knows".to_string()));
}

#[test]
fn a_listing_shows_the_whitelisted_part_unless_hydrated() {
    let schema = schema_of_fields(vec!["type".to_string()], Vec::new());
    let data = props(&[("type", "User"), ("name", "Ann")]);
    let part = shown_if_listed(data.clone(), Some("User"), &schema, false).unwrap();
    assert_eq!(part.len(), 1);
    assert_eq!(part.get("type"), Some(&"User".to_string()));
    let full = shown_if_listed(data.clone(), None, &schema, true).unwrap();
    assert_eq!(full.len(), 2);
    assert!(shown_if_listed(data, Some("Team"), &schema, true).is_none());
    assert!(shown_if_listed(props(&[("status", "deleted")]), None, &schema, true).is_none());
}

#[test]
fn nodes_are_sorted_by_id_and_cut() {
    let sorted = sorted_and_cut(vec![node("c"), node("a"), node("b")], Some(2));
    assert_eq!(node_ids(&sorted), vec!["a", "b"]);
    let all = sorted_and_cut(vec![node("c"), node("a"), node("b")], None);
    assert_eq!(node_ids(&all), vec!["a", "b", "c"]);
}

#[test]
fn own_rows_are_those_of_the_node() {
    let mut cache = LruCache::new(8);
    let mut data = PropertyMap::new();
    add_own_property(row("n1\x1fname", "Ann"), "n1", &mut cache, &mut data);
    add_own_property(row("n10\x1fname", "Bea"), "n1", &mut cache, &mut data);
    assert_eq!(data.len(), 1);
    assert_eq!(data.get("name"), Some(&"Ann".to_string()));
    let mut groups = Groups::new();
    add_own_group(row("n1\x1fb\x1ftype", "knows"), "n1", &mut cache, &mut groups);
    add_own_group(row("n10\x1fb\x1ftype", "likes"), "n1", &mut cache, &mut groups);
    assert_eq!(groups.get_or_empty("b").get("type"), Some(&"knows".to_string()));
    let schema = SchemaCache::new();
    let mut views: Vec<EdgeView> = Vec::new();
    add_own_edge(&row("n10\x1fb", ""), "n1", &schema, true, &mut cache, &mut groups, &mut views);
    assert_eq!(views.len(), 0);
    add_own_edge(&row("n1\x1fb", ""), "n1", &schema, true, &mut cache, &mut groups, &mut views);
    assert_eq!(views.len(), 1);
    assert_eq!(views[0].to, "b");
    assert_eq!(groups.get_or_empty("b").len(), 0);
}

#[test]
fn a_typed_edge_is_wanted_where_it_is_active_and_passes() {
    let active = ids(&["a\x1fb"]);
    assert!(wants_typed_edge(&active, None, None, "a", "b"));
    assert!(wants_typed_edge(&active, Some("a"), Some("b"), "a", "b"));
    assert!(!wants_typed_edge(&active, Some("x"), None, "a", "b"));
    assert!(!wants_typed_edge(&active, None, Some("x"), "a", "b"));
    assert!(!wants_typed_edge(&active, None, None, "a", "c"));
    let schema = schema_of_fields(Vec::new(), vec!["type".to_string()]);
    let mut views: Vec<EdgeListView> = Vec::new();
    let data = props(&[("type", "knows"), ("weight", "2")]);
    add_typed_edge("a", "b", data.clone(), &schema, false, &mut views);
    add_typed_edge("a", "b", data, &schema, true, &mut views);
    assert_eq!(views[0].data.len(), 1);
    assert_eq!(views[1].data.len(), 2);
    assert_eq!((views[0].from.as_str(), views[0].to.as_str()), ("a", "b"));
}

#[test]
fn a_listing_by_source_filters_the_target() {
    let mut cache = LruCache::new(8);
    let mut groups = Groups::new();
    groups.add("b", "type".to_string(), "knows".to_string());
    let active = ids(&["a\x1fb", "a\x1fc"]);
    let schema = SchemaCache::new();
    let mut views: Vec<EdgeListView> = Vec::new();
    add_source_edge(
        &row("a\x1fb", ""), "a", &groups, &active, Some("c"), &schema, true, &mut cache, &mut views,
    );
    assert_eq!(views.len(), 0);
    add_source_edge(
        &row("a\x1fb", ""), "a", &groups, &active, None, &schema, true, &mut cache, &mut views,
    );
    add_source_edge(
        &row("a\x1fd", ""), "a", &groups, &active, None, &schema, true, &mut cache, &mut views,
    );
    assert_eq!(views.len(), 1);
    assert_eq!(views[0].to, "b");
    assert_eq!(views[0].data.get("type"), Some(&"knows".to_string()));
}

#[test]
fn a_sweep_takes_the_group_of_each_edge() {
    let mut cache = LruCache::new(8);
    let mut groups = Groups::new();
    add_keyed_group(row("a\x1fb\x1ftype", "knows"), &mut cache, &mut groups);
    add_keyed_group(row("a\x1fc\x1fstatus", "deleted"), &mut cache, &mut groups);
    assert_eq!(groups.get_or_empty("a\x1fb").len(), 1);
    let active = ids(&["a\x1fb", "a\x1fc"]);
    let schema = SchemaCache::new();
    let mut views: Vec<EdgeListView> = Vec::new();
    add_swept_edge(
        &row("a\x1fb", ""), &active, None, &schema, true, &mut cache, &mut groups, &mut views,
    );
    add_swept_edge(
        &row("a\x1fc", ""), &active, None, &schema, true, &mut cache, &mut groups, &mut views,
    );
    add_swept_edge(
        &row("a\x1fd", ""), &active, None, &schema, true, &mut cache, &mut groups, &mut views,
    );
    assert_eq!(views.len(), 1);
    assert_eq!((views[0].from.as_str(), views[0].to.as_str()), ("a", "b"));
    assert_eq!(groups.get_or_empty("a\x1fb").len(), 0);
}

#[test]
fn the_cache_links_active_edges_between_active_nodes() {
    let nodes = vec!["a".to_string(), "b".to_string()];
    let active = IdSet::from_list(&nodes);
    let edges = vec![
        ("a".to_string(), "b".to_string()),
        ("a".to_string(), "x".to_string()),
        ("x".to_string(), "b".to_string()),
    ];
    let (graph, kept) = linked_graph(&nodes, &active, &edges);
    assert_eq!(kept, vec![("a".to_string(), "b".to_string())]);
    assert_eq!(graph.node_count(), 2);
    assert!(graph.has_edge("a", "b"));
    assert!(!graph.has_edge("a", "x"));
    assert!(!graph.has_node("x"));
}

#[test]
fn the_cache_takes_whitelisted_properties_of_what_it_holds() {
    let mut cache = LruCache::new(8);
    let mut graph = Graph::new();
    graph.add_node("a");
    graph.add_node("b");
    graph.add_edge("a", "b");
    let schema = schema_of_fields(vec!["type".to_string()], vec!["type".to_string()]);
    let active = ids(&["a", "b"]);
    cache_node_row(&row("a\x1ftype", "User"), &active, &schema, &mut cache, &mut graph);
    cache_node_row(&row("a\x1fname", "Ann"), &active, &schema, &mut cache, &mut graph);
    cache_node_row(&row("x\x1ftype", "User"), &active, &schema, &mut cache, &mut graph);
    let a = graph.get_node("a").unwrap();
    assert_eq!(a.data.len(), 1);
    assert_eq!(a.data.get("type"), Some(&"User".to_string()));
    assert!(!graph.has_node("x"));
    let cached = ids(&["a\x1fb"]);
    cache_edge_row(&row("a\x1fb\x1ftype", "knows"), &cached, &schema, &mut cache, &mut graph);
    cache_edge_row(&row("a\x1fb\x1fweight", "2"), &cached, &schema, &mut cache, &mut graph);
    cache_edge_row(&row("b\x1fa\x1ftype", "knows"), &cached, &schema, &mut cache, &mut graph);
    assert_eq!(graph.edge_type("a", "b"), Some("knows"));
    assert_eq!(graph.get_node("a").unwrap().neighbors[0].data.len(), 1);
    assert!(!graph.has_edge("b", "a"));
}

#[test]
fn a_kind_has_a_whitelist_where_its_row_holds_a_field() {
    assert!(fields_of_row(None).is_empty());
    assert_eq!(
        fields_of_row(Some("name\x1ftype".to_string())),
        vec!["name".to_string(), "type".to_string()]
    );
    let schema = schema_of_fields(vec!["name".to_string()], Vec::new());
    assert!(schema.node_defined);
    assert!(!schema.edge_defined);
    assert_eq!(schema.node_fields, vec!["name".to_string()]);
    assert!(schema.edge_fields.is_empty());
}

#[test]
fn a_candidate_takes_the_stored_properties_of_an_active_node() {
    let item = Ranked { id: "n1".to_string(), score: 7, data: props(&[("type", "User")]) };
    let full = hydrated_item(&item, props(&[("type", "User"), ("name", "Ann")]));
    assert_eq!((full.id.as_str(), full.score, full.data.len()), ("n1", 7, 2));
    let same = hydrated_item(&item, props(&[("status", "deleted"), ("name", "Ann")]));
    assert_eq!((same.id.as_str(), same.score, same.data.len()), ("n1", 7, 1));
    assert_eq!(same.data.get("type"), Some(&"User".to_string()));
}

#[test]
fn excluded_nodes_leave_before_the_limit_cuts() {
    assert_eq!(listing_limit(&IdSet::new(), Some(3)), Some(3));
    assert_eq!(listing_limit(&ids(&["a"]), Some(3)), None);
    assert_eq!(listing_limit(&ids(&["a"]), None), None);
    let kept = kept_and_cut(vec![node("a"), node("b"), node("c")], &ids(&["a"]), Some(1));
    assert_eq!(node_ids(&kept), vec!["b"]);
    let all = kept_and_cut(vec![node("a"), node("b"), node("c")], &IdSet::new(), Some(2));
    assert_eq!(node_ids(&all), vec!["a", "b"]);
}

#[test]
fn a_storage_failure_carries_its_text() {
    match storage_failure("disk full".to_string()) {
        ServiceError::Storage(text) => assert_eq!(text, "disk full"),
        other => panic!("unexpected {:?}", other),
    }
}

#[test]
fn white_space_is_what_the_standard_library_trims() {
    for code in 0u32..=0x10ffff {
        if let Some(c) = char::from_u32(code) {
            assert_eq!(elo::text::is_space(c), c.is_whitespace(), "U+{:04X}", code);
        }
    }
}

#[test]
fn trimming_takes_the_white_space_off_both_ends() {
    for text in [
        "",
        " ",
        "a",
        "  a b \t\n",
        "\u{a0}\u{3000}x\u{2003} y\u{85}",
        "\r\n\u{1680}",
        "é \u{2028}",
        "  type  ",
    ] {
        assert_eq!(elo::text::trim_str(text), text.trim(), "{:?}", text);
    }
}
