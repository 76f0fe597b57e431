use elo::db::{
    get_node_from_db, list_edge_ids_by_index, list_edges_from_db, list_node_ids_by_index,
    list_nodes_by_geo_prefix, list_nodes_from_db, load_graph, load_schema,
};
use elo::graph::Graph;
use elo::props::PropertyMap;
use elo::schema::SchemaCache;
use elo::service::{
    create_edge, create_node, delete_edge, delete_node, set_edge_data, set_node_data, start,
    upsert_schema, ServiceError,
};

struct World {
    db: redb::Database,
    graph: Graph,
    schema: SchemaCache,
}

fn world() -> World {
    let db = redb::Database::builder()
        .create_with_backend(redb::backends::InMemoryBackend::new())
        .expect("database");
    let (schema, graph) = start(&db).expect("start");
    World { db, graph, schema }
}

fn props(pairs: &[(&str, &str)]) -> PropertyMap {
    let mut map = PropertyMap::new();
    for (key, value) in pairs {
        map.insert(key.to_string(), value.to_string());
    }
    map
}

fn add_node(w: &mut World, id: &str, pairs: &[(&str, &str)]) {
    create_node(&w.db, &mut w.graph, &w.schema, id, Some(props(pairs))).expect("node");
}

fn add_edge(w: &mut World, from: &str, to: &str, kind: &str) {
    create_edge(&w.db, &mut w.graph, &w.schema, from, to, Some(props(&[("type", kind)])))
        .expect("edge");
}

fn raw_insert(db: &redb::Database, table: &'static str, key: &str, value: &str) {
    let txn = db.begin_write().unwrap();
    {
        let def: redb::TableDefinition<&str, &str> = redb::TableDefinition::new(table);
        let mut handle = txn.open_table(def).unwrap();
        handle.insert(key, value).unwrap();
    }
    txn.commit().unwrap();
}

#[test]
fn upsert_replaces_the_index_entry_of_the_old_value() {
    let mut w = world();
    add_node(&mut w, "n1", &[("type", "User")]);
    assert_eq!(list_node_ids_by_index(&w.db, "type", "User").unwrap(), vec!["n1".to_string()]);
    set_node_data(&w.db, &mut w.graph, &w.schema, "n1", "type", "Team").unwrap();
    assert!(list_node_ids_by_index(&w.db, "type", "User").unwrap().is_empty());
    assert_eq!(list_node_ids_by_index(&w.db, "type", "Team").unwrap(), vec!["n1".to_string()]);
}

#[test]
fn index_scan_does_not_leak_into_longer_values() {
    let mut w = world();
    add_node(&mut w, "a", &[("type", "Team")]);
    add_node(&mut w, "b", &[("type", "TeamLead")]);
    assert_eq!(list_node_ids_by_index(&w.db, "type", "Team").unwrap(), vec!["a".to_string()]);
}

#[test]
fn node_with_separator_bytes_is_read_back_exactly() {
    let mut w = world();
    let id = "user\x1ftype\x1fadmin%";
    add_node(&mut w, id, &[]);
    set_node_data(&w.db, &mut w.graph, &w.schema, id, "type", "Admin").unwrap();
    let schema = SchemaCache::new();
    let node = get_node_from_db(&w.db, id, &schema, true).unwrap().expect("node");
    assert_eq!(node.id, id);
    assert_eq!(node.data.get("type").map(|s| s.as_str()), Some("Admin"));
    let listed = list_nodes_from_db(&w.db, Some("Admin"), &schema, true).unwrap();
    assert_eq!(listed.len(), 1);
    assert_eq!(listed[0].id, id);
}

#[test]
fn soft_deleted_node_disappears_with_all_its_edges() {
    let mut w = world();
    let schema = SchemaCache::new();
    add_node(&mut w, "hub", &[("type", "User")]);
    for i in 0..5 {
        let id = format!("out{}", i);
        add_node(&mut w, &id, &[("type", "User")]);
        add_edge(&mut w, "hub", &id, "member");
    }
    for i in 0..3 {
        let id = format!("in{}", i);
        add_node(&mut w, &id, &[("type", "User")]);
        add_edge(&mut w, &id, "hub", "member");
    }
    assert_eq!(list_edges_from_db(&w.db, None, None, None, &schema, true).unwrap().len(), 8);
    let graph = load_graph(&w.db, &schema).unwrap();
    assert!(graph.exist_path("in0", "out0"));

    delete_node(&w.db, &mut w.graph, "hub").unwrap();
    assert!(get_node_from_db(&w.db, "hub", &schema, true).unwrap().is_none());
    let nodes = list_nodes_from_db(&w.db, None, &schema, true).unwrap();
    assert_eq!(nodes.len(), 8);
    assert!(nodes.iter().all(|node| node.id != "hub"));
    assert!(list_edges_from_db(&w.db, None, None, None, &schema, true).unwrap().is_empty());
    assert!(list_edges_from_db(&w.db, Some("member"), None, None, &schema, true).unwrap().is_empty());
    assert!(list_edges_from_db(&w.db, None, Some("hub"), None, &schema, true).unwrap().is_empty());
    assert!(list_edge_ids_by_index(&w.db, "status", "active").unwrap().is_empty());
    let graph = load_graph(&w.db, &schema).unwrap();
    assert!(!graph.has_node("hub"));
    assert!(!graph.exist_path("in0", "out0"));
    assert!(matches!(
        delete_node(&w.db, &mut w.graph, "missing"),
        Err(ServiceError::NotFound(_))
    ));
}

#[test]
fn soft_delete_edge_reports_missing_edges() {
    let mut w = world();
    add_node(&mut w, "a", &[]);
    add_node(&mut w, "b", &[]);
    add_edge(&mut w, "a", "b", "friend");
    assert!(matches!(
        delete_edge(&w.db, &mut w.graph, "b", "a"),
        Err(ServiceError::NotFound(_))
    ));
    delete_edge(&w.db, &mut w.graph, "a", "b").unwrap();
    let schema = SchemaCache::new();
    assert!(list_edges_from_db(&w.db, None, None, None, &schema, true).unwrap().is_empty());
}

#[test]
fn edge_listing_filters_by_type_source_and_target() {
    let mut w = world();
    let schema = SchemaCache::new();
    for id in ["a", "b", "c"] {
        add_node(&mut w, id, &[]);
    }
    add_edge(&mut w, "a", "b", "friend");
    add_edge(&mut w, "a", "c", "member");
    add_edge(&mut w, "b", "c", "friend");
    let all = list_edges_from_db(&w.db, None, None, None, &schema, true).unwrap();
    let ends: Vec<(String, String)> = all.iter().map(|e| (e.from.clone(), e.to.clone())).collect();
    assert_eq!(
        ends,
        vec![
            ("a".to_string(), "b".to_string()),
            ("a".to_string(), "c".to_string()),
            ("b".to_string(), "c".to_string())
        ]
    );
    let friends = list_edges_from_db(&w.db, Some("friend"), None, None, &schema, true).unwrap();
    assert_eq!(friends.len(), 2);
    let from_a = list_edges_from_db(&w.db, None, Some("a"), None, &schema, true).unwrap();
    assert_eq!(from_a.len(), 2);
    let a_to_c = list_edges_from_db(&w.db, None, Some("a"), Some("c"), &schema, true).unwrap();
    assert_eq!(a_to_c.len(), 1);
    assert_eq!(a_to_c[0].data.get("type").map(|s| s.as_str()), Some("member"));
    let to_c = list_edges_from_db(&w.db, None, None, Some("c"), &schema, true).unwrap();
    assert_eq!(to_c.len(), 2);
    let friend_to_c = list_edges_from_db(&w.db, Some("friend"), None, Some("c"), &schema, true).unwrap();
    assert_eq!(friend_to_c.len(), 1);
    assert_eq!(friend_to_c[0].from, "b");
}

#[test]
fn whitelist_hides_fields_unless_hydrated() {
    let mut w = world();
    let fields = vec!["type".to_string(), "rating".to_string()];
    upsert_schema(&w.db, &mut w.graph, &mut w.schema, "node", &fields).unwrap();
    let schema = load_schema(&w.db).unwrap();
    assert!(schema.node_defined);
    assert!(!schema.edge_defined);
    assert!(schema.node_in_memory("type"));
    assert!(schema.node_in_memory("rating"));
    assert!(!schema.node_in_memory("extra"));
    assert!(schema.edge_in_memory("extra"));
    add_node(&mut w, "t1", &[("type", "Team"), ("rating", "600"), ("extra", "x")]);
    let plain = list_nodes_from_db(&w.db, None, &schema, false).unwrap();
    assert_eq!(plain.len(), 1);
    assert!(plain[0].data.get("extra").is_none());
    assert_eq!(plain[0].data.get("rating").map(|s| s.as_str()), Some("600"));
    assert!(plain[0].data.get("status").is_none());
    let full = list_nodes_from_db(&w.db, None, &schema, true).unwrap();
    assert_eq!(full[0].data.get("extra").map(|s| s.as_str()), Some("x"));
    let graph = load_graph(&w.db, &schema).unwrap();
    let node = graph.get_node("t1").expect("cached");
    assert_eq!(node.data.len(), 2);
    assert!(node.data.get("extra").is_none());
    assert_eq!(node.data.get("type").map(|s| s.as_str()), Some("Team"));
}

#[test]
fn cache_holds_the_active_nodes_and_the_edges_between_them() {
    let mut w = world();
    let schema = SchemaCache::new();
    add_node(&mut w, "a", &[]);
    add_node(&mut w, "b", &[]);
    add_node(&mut w, "gone", &[]);
    add_node(&mut w, "never", &[("status", "deleted")]);
    assert!(!w.graph.has_node("never"));
    add_edge(&mut w, "a", "b", "friend");
    add_edge(&mut w, "a", "gone", "friend");
    add_edge(&mut w, "b", "a", "friend");
    set_node_data(&w.db, &mut w.graph, &w.schema, "gone", "status", "deleted").unwrap();
    set_edge_data(&w.db, &mut w.graph, &w.schema, "b", "a", "status", "deleted").unwrap();
    let graph = load_graph(&w.db, &schema).unwrap();
    assert!(graph.has_node("a"));
    assert!(graph.has_node("b"));
    assert!(!graph.has_node("gone"));
    assert!(!graph.has_node("never"));
    assert_eq!(graph.node_count(), 2);
    assert!(graph.has_edge("a", "b"));
    assert!(!graph.has_edge("a", "gone"));
    assert!(!graph.has_edge("b", "a"));
    assert_eq!(graph.edge_type("a", "b"), Some("friend"));
}

#[test]
fn status_backfill_makes_legacy_rows_active() {
    let w = world();
    raw_insert(&w.db, "nodes", "old", "");
    raw_insert(&w.db, "nodes", "older", "");
    raw_insert(&w.db, "edges", "old\x1folder", "");
    assert!(list_node_ids_by_index(&w.db, "status", "active").unwrap().is_empty());
    let (schema, graph) = start(&w.db).unwrap();
    assert_eq!(
        list_node_ids_by_index(&w.db, "status", "active").unwrap(),
        vec!["old".to_string(), "older".to_string()]
    );
    assert_eq!(
        list_edge_ids_by_index(&w.db, "status", "active").unwrap(),
        vec![("old".to_string(), "older".to_string())]
    );
    assert!(graph.has_edge("old", "older"));
    let stored = get_node_from_db(&w.db, "old", &schema, true).unwrap().unwrap();
    assert_eq!(stored.data.get("status").map(|s| s.as_str()), Some("active"));
    let (_, again) = start(&w.db).unwrap();
    assert_eq!(again.node_count(), 2);
    assert_eq!(list_node_ids_by_index(&w.db, "status", "active").unwrap().len(), 2);
}

#[test]
fn empty_indexes_are_rebuilt_from_the_property_rows() {
    let w = world();
    raw_insert(&w.db, "node_data", "n1\x1ftype", "User");
    raw_insert(&w.db, "node_data", "n1\x1fstatus", "active");
    raw_insert(&w.db, "edge_data", "n1\x1fn2\x1fstatus", "active");
    assert!(list_node_ids_by_index(&w.db, "type", "User").unwrap().is_empty());
    start(&w.db).unwrap();
    assert_eq!(list_node_ids_by_index(&w.db, "type", "User").unwrap(), vec!["n1".to_string()]);
    assert_eq!(list_node_ids_by_index(&w.db, "status", "active").unwrap(), vec!["n1".to_string()]);
    assert_eq!(
        list_edge_ids_by_index(&w.db, "status", "active").unwrap(),
        vec![("n1".to_string(), "n2".to_string())]
    );
    raw_insert(&w.db, "node_data", "n3\x1ftype", "User");
    start(&w.db).unwrap();
    assert_eq!(list_node_ids_by_index(&w.db, "type", "User").unwrap(), vec!["n1".to_string()]);
}

#[test]
fn geo_prefix_listing_is_sorted_and_cut_to_the_limit() {
    let mut w = world();
    let schema = SchemaCache::new();
    add_node(&mut w, "gym:c", &[("type", "Gym"), ("geo_hash", "6gyf4b")]);
    add_node(&mut w, "gym:a", &[("type", "Gym"), ("geo_hash", "6gyf4c")]);
    add_node(&mut w, "gym:b", &[("type", "Gym"), ("geo_hash", "6gyzzz")]);
    add_node(&mut w, "gym:far", &[("type", "Gym"), ("geo_hash", "dr5reg")]);
    add_node(&mut w, "shop", &[("type", "Shop"), ("geo_hash", "6gyf4d")]);
    let near = list_nodes_by_geo_prefix(&w.db, "Gym", "geo_hash", "6gy", None, &schema, true).unwrap();
    let ids: Vec<&str> = near.iter().map(|node| node.id.as_str()).collect();
    assert_eq!(ids, vec!["gym:a", "gym:b", "gym:c"]);
    let cut = list_nodes_by_geo_prefix(&w.db, "Gym", "geo_hash", "6gy", Some(2), &schema, true).unwrap();
    let ids: Vec<&str> = cut.iter().map(|node| node.id.as_str()).collect();
    assert_eq!(ids, vec!["gym:a", "gym:b"]);
    let none = list_nodes_by_geo_prefix(&w.db, "Gym", "geo_hash", "u", None, &schema, true).unwrap();
    assert!(none.is_empty());
}

#[test]
fn scanners_skip_rows_that_do_not_decode() {
    let mut w = world();
    add_node(&mut w, "good", &[("type", "User")]);
    raw_insert(&w.db, "node_index", "status\x1factive\x1f%zz", "");
    raw_insert(&w.db, "node_index", "status\x1factive", "");
    raw_insert(&w.db, "node_index", "type\x1fUser\x1f%FF", "");
    raw_insert(&w.db, "node_data", "%4\x1ftype", "User");
    raw_insert(&w.db, "node_data", "good\x1f%G0", "x");
    raw_insert(&w.db, "edge_index", "status\x1factive\x1fgood", "");
    assert_eq!(list_node_ids_by_index(&w.db, "status", "active").unwrap(), vec!["good".to_string()]);
    assert_eq!(list_node_ids_by_index(&w.db, "type", "User").unwrap(), vec!["good".to_string()]);
    assert!(list_edge_ids_by_index(&w.db, "status", "active").unwrap().is_empty());
    let schema = SchemaCache::new();
    let node = get_node_from_db(&w.db, "good", &schema, true).unwrap().unwrap();
    assert_eq!(node.data.len(), 2);
    let graph = load_graph(&w.db, &schema).unwrap();
    assert_eq!(graph.node_count(), 1);
}

#[test]
fn rows_under_other_encodings_of_an_id_are_found_by_full_scans() {
    let mut w = world();
    add_node(&mut w, "a", &[]);
    raw_insert(&w.db, "node_data", "%61\x1fnick", "alpha");
    let schema = SchemaCache::new();
    let node = get_node_from_db(&w.db, "a", &schema, true).unwrap().unwrap();
    assert_eq!(node.data.get("nick").map(|s| s.as_str()), Some("alpha"));
    let listed = list_nodes_from_db(&w.db, None, &schema, true).unwrap();
    assert_eq!(listed.len(), 1);
    assert!(listed[0].data.get("nick").is_none());
}

#[test]
fn listings_keep_the_byte_order_of_the_keys() {
    let mut w = world();
    for id in ["b", "a", "é", "Z", "a\x1fb", "a%", "aa"] {
        add_node(&mut w, id, &[("type", "T")]);
    }
    let ids = list_node_ids_by_index(&w.db, "type", "T").unwrap();
    assert_eq!(
        ids,
        vec![
            "é".to_string(),
            "Z".to_string(),
            "a".to_string(),
            "a\x1fb".to_string(),
            "a%".to_string(),
            "aa".to_string(),
            "b".to_string()
        ]
    );
    let schema = SchemaCache::new();
    let near = list_nodes_by_geo_prefix(&w.db, "T", "type", "", None, &schema, true).unwrap();
    let sorted: Vec<&str> = near.iter().map(|n| n.id.as_str()).collect();
    assert_eq!(sorted, vec!["Z", "a", "a\x1fb", "a%", "aa", "b", "é"]);
}

#[test]
fn edges_to_inactive_nodes_are_left_out_of_node_listings() {
    let mut w = world();
    add_node(&mut w, "a", &[]);
    add_node(&mut w, "b", &[]);
    add_node(&mut w, "c", &[]);
    add_edge(&mut w, "a", "b", "friend");
    add_edge(&mut w, "a", "c", "friend");
    set_node_data(&w.db, &mut w.graph, &w.schema, "c", "status", "deleted").unwrap();
    let schema = SchemaCache::new();
    let listed = list_nodes_from_db(&w.db, None, &schema, true).unwrap();
    let a = listed.iter().find(|n| n.id == "a").unwrap();
    assert_eq!(a.edges.len(), 1);
    assert_eq!(a.edges[0].to, "b");
    let fetched = get_node_from_db(&w.db, "a", &schema, true).unwrap().unwrap();
    assert_eq!(fetched.edges.len(), 2);
    assert!(get_node_from_db(&w.db, "c", &schema, true).unwrap().is_none());
    assert!(get_node_from_db(&w.db, "zz", &schema, true).unwrap().is_none());
}

#[test]
fn listings_of_some_thousand_rows_come_in_time() {
    let mut w = world();
    let schema = SchemaCache::new();
    let txn = w.db.begin_write().unwrap();
    {
        let nodes_def: redb::TableDefinition<&str, &str> = redb::TableDefinition::new("nodes");
        let data_def: redb::TableDefinition<&str, &str> = redb::TableDefinition::new("node_data");
        let index_def: redb::TableDefinition<&str, &str> = redb::TableDefinition::new("node_index");
        let edges_def: redb::TableDefinition<&str, &str> = redb::TableDefinition::new("edges");
        let edge_data_def: redb::TableDefinition<&str, &str> = redb::TableDefinition::new("edge_data");
        let edge_index_def: redb::TableDefinition<&str, &str> = redb::TableDefinition::new("edge_index");
        let mut nodes = txn.open_table(nodes_def).unwrap();
        let mut data = txn.open_table(data_def).unwrap();
        let mut index = txn.open_table(index_def).unwrap();
        let mut edges = txn.open_table(edges_def).unwrap();
        let mut edge_data = txn.open_table(edge_data_def).unwrap();
        let mut edge_index = txn.open_table(edge_index_def).unwrap();
        for i in 0..3000 {
            let id = format!("n{:05}", i);
            nodes.insert(id.as_str(), "").unwrap();
            data.insert(format!("{}\x1fstatus", id).as_str(), "active").unwrap();
            index.insert(format!("status\x1factive\x1f{}", id).as_str(), "").unwrap();
            let to = format!("n{:05}", (i + 1) % 3000);
            edges.insert(format!("{}\x1f{}", id, to).as_str(), "").unwrap();
            edge_data.insert(format!("{}\x1f{}\x1fstatus", id, to).as_str(), "active").unwrap();
            edge_index.insert(format!("status\x1factive\x1f{}\x1f{}", id, to).as_str(), "").unwrap();
        }
    }
    txn.commit().unwrap();
    assert_eq!(list_nodes_from_db(&w.db, None, &schema, true).unwrap().len(), 3000);
    assert_eq!(list_edges_from_db(&w.db, None, None, None, &schema, true).unwrap().len(), 3000);
    let graph = load_graph(&w.db, &schema).unwrap();
    assert_eq!(graph.node_count(), 3000);
    assert!(graph.exist_path("n00000", "n02999"));
    let node = get_node_from_db(&w.db, "n01500", &schema, true).unwrap().unwrap();
    assert_eq!(node.edges.len(), 1);
    assert_eq!(node.edges[0].to, "n01501");
}
