use elo::db::{get_node_from_db, list_edges_from_db, list_nodes_from_db, load_graph};
use elo::geo::{encode_geohash, geohash_precision_for_radius};
use elo::graph::Graph;
use elo::idset::IdSet;
use elo::props::PropertyMap;
use elo::query::{
    find_two_hop_paths, hydrate_candidates, is_edge_type_excluded, list_nearby,
    nearby_exclusions, nearby_prefix, parse_csv_set, rank_candidates, typed_candidate, Ranked,
};
use elo::schema::SchemaCache;
use elo::query::PathHit;
use elo::schema::EntityKind;
use elo::service::{
    edge_deletion_outcome, found_node, node_deletion_outcome, outcome, settle_created_node,
    settle_edge_deletion, settle_node_deletion, settle_reload, settle_whitelist,
};
use elo::tally::{admit_origin, group_paths};
use elo::service::{
    admit_edge, admit_ends, admit_node, block_payload, cache_created_edge, cache_created_node,
    cache_edge_patch, cache_edge_property, cache_node_patch, cache_node_property, check_path,
    checked_whitelist, create_block, create_edge, create_node, delete_block, delete_edge,
    delete_node, get_schema, hydration, payload_or_empty, reload_cache, set_edge_data,
    set_node_data, set_whitelist, start, store_edge, store_edge_deletion, store_edge_properties,
    store_edge_property, store_node, store_node_deletion, store_node_properties,
    store_node_property, store_whitelist, unlink_cached, update_edge_data, update_node_data,
    upsert_schema, ServiceError,
};

fn props(pairs: &[(&str, &str)]) -> PropertyMap {
    let mut map = PropertyMap::new();
    for (key, value) in pairs {
        map.insert(key.to_string(), value.to_string());
    }
    map
}

struct World {
    db: redb::Database,
    graph: Graph,
    schema: SchemaCache,
}

fn world() -> World {
    let db = redb::Database::builder()
        .create_with_backend(redb::backends::InMemoryBackend::new())
        .expect("database");
    let (schema, graph) = start(&db).expect("start");
    World { db, graph, schema }
}

fn node(w: &mut World, id: &str, pairs: &[(&str, &str)]) {
    create_node(&w.db, &mut w.graph, &w.schema, id, Some(props(pairs))).expect("node");
}

fn edge(w: &mut World, from: &str, to: &str, pairs: &[(&str, &str)]) {
    create_edge(&w.db, &mut w.graph, &w.schema, from, to, Some(props(pairs))).expect("edge");
}

#[test]
fn created_nodes_default_to_active() {
    let mut w = world();
    create_node(&w.db, &mut w.graph, &w.schema, "a", None).unwrap();
    node(&mut w, "b", &[("type", "User")]);
    let cached = w.graph.get_node("a").unwrap();
    assert_eq!(cached.data.get("status").map(|s| s.as_str()), Some("active"));
    let stored = get_node_from_db(&w.db, "b", &w.schema, true).unwrap().unwrap();
    assert_eq!(stored.data.get("status").map(|s| s.as_str()), Some("active"));
    assert_eq!(stored.data.get("type").map(|s| s.as_str()), Some("User"));
}

#[test]
fn edges_need_both_ends() {
    let mut w = world();
    node(&mut w, "a", &[]);
    let r = create_edge(&w.db, &mut w.graph, &w.schema, "a", "missing", None);
    assert!(matches!(r, Err(ServiceError::NotFound(_))));
    let r = create_edge(&w.db, &mut w.graph, &w.schema, "missing", "a", None);
    match r {
        Err(error) => assert_eq!(error.message(), "node not found"),
        Ok(()) => panic!("edge without a source"),
    }
    assert!(list_edges_from_db(&w.db, None, None, None, &w.schema, true).unwrap().is_empty());
}

#[test]
fn block_edges_are_mirrored_and_deleted_together() {
    let mut w = world();
    node(&mut w, "a", &[]);
    node(&mut w, "b", &[]);
    edge(&mut w, "a", "b", &[("type", "block"), ("reason", "spam")]);
    assert!(w.graph.has_edge("a", "b"));
    assert!(w.graph.has_edge("b", "a"));
    assert_eq!(w.graph.edge_type("b", "a"), Some("block"));
    let stored = list_edges_from_db(&w.db, Some("block"), None, None, &w.schema, true).unwrap();
    assert_eq!(stored.len(), 2);
    for listed in &stored {
        assert_eq!(listed.data.get("reason").map(|s| s.as_str()), Some("spam"));
        assert_eq!(listed.data.get("status").map(|s| s.as_str()), Some("active"));
    }
    delete_edge(&w.db, &mut w.graph, "a", "b").unwrap();
    assert!(!w.graph.has_edge("a", "b"));
    assert!(!w.graph.has_edge("b", "a"));
    assert!(list_edges_from_db(&w.db, None, None, None, &w.schema, true).unwrap().is_empty());
    let again = delete_edge(&w.db, &mut w.graph, "x", "y");
    assert!(matches!(again, Err(ServiceError::NotFound(_))));
}

#[test]
fn plain_edges_are_not_mirrored() {
    let mut w = world();
    node(&mut w, "a", &[]);
    node(&mut w, "b", &[]);
    edge(&mut w, "a", "b", &[("type", "friend")]);
    assert!(w.graph.has_edge("a", "b"));
    assert!(!w.graph.has_edge("b", "a"));
    edge(&mut w, "a", "a", &[("type", "block")]);
    assert!(w.graph.has_edge("a", "a"));
    assert_eq!(list_edges_from_db(&w.db, None, None, None, &w.schema, true).unwrap().len(), 2);
}

#[test]
fn explicit_blocks_force_the_type() {
    let mut w = world();
    node(&mut w, "a", &[]);
    node(&mut w, "b", &[]);
    create_block(&w.db, &mut w.graph, &w.schema, "a", "b", Some(props(&[("type", "friend")]))).unwrap();
    assert_eq!(w.graph.edge_type("a", "b"), Some("block"));
    assert_eq!(w.graph.edge_type("b", "a"), Some("block"));
    let r = create_block(&w.db, &mut w.graph, &w.schema, "a", "nobody", None);
    assert!(matches!(r, Err(ServiceError::NotFound(_))));
    delete_block(&w.db, &mut w.graph, "b", "a").unwrap();
    assert!(!w.graph.has_edge("a", "b"));
    assert!(!w.graph.has_edge("b", "a"));
    let r = delete_block(&w.db, &mut w.graph, "b", "a");
    assert!(matches!(r, Err(ServiceError::NotFound(_))));
}

#[test]
fn setting_the_type_to_block_mirrors_the_edge() {
    let mut w = world();
    node(&mut w, "a", &[]);
    node(&mut w, "b", &[]);
    edge(&mut w, "a", "b", &[("type", "friend")]);
    set_edge_data(&w.db, &mut w.graph, &w.schema, "a", "b", "type", "block").unwrap();
    assert_eq!(w.graph.edge_type("b", "a"), Some("block"));
    let r = set_edge_data(&w.db, &mut w.graph, &w.schema, "b", "c", "k", "v");
    assert!(matches!(r, Err(ServiceError::NotFound(_))));
    set_edge_data(&w.db, &mut w.graph, &w.schema, "a", "b", "status", "deleted").unwrap();
    assert!(!w.graph.has_edge("a", "b"));
    assert!(w.graph.has_edge("b", "a"));
}

#[test]
fn patches_merge_and_may_delete() {
    let mut w = world();
    node(&mut w, "a", &[("type", "User")]);
    node(&mut w, "b", &[]);
    edge(&mut w, "a", "b", &[]);
    update_node_data(&w.db, &mut w.graph, &w.schema, "a", &props(&[("rating", "5"), ("type", "Team")])).unwrap();
    let cached = w.graph.get_node("a").unwrap();
    assert_eq!(cached.data.get("type").map(|s| s.as_str()), Some("Team"));
    assert_eq!(cached.data.get("rating").map(|s| s.as_str()), Some("5"));
    update_edge_data(&w.db, &mut w.graph, &w.schema, "a", "b", &props(&[("type", "block")])).unwrap();
    assert_eq!(w.graph.edge_type("b", "a"), Some("block"));
    let r = update_node_data(&w.db, &mut w.graph, &w.schema, "zz", &props(&[("a", "b")]));
    assert!(matches!(r, Err(ServiceError::NotFound(_))));
    let r = update_edge_data(&w.db, &mut w.graph, &w.schema, "b", "zz", &props(&[("a", "b")]));
    assert!(matches!(r, Err(ServiceError::NotFound(_))));
    update_node_data(&w.db, &mut w.graph, &w.schema, "b", &props(&[("status", "deleted")])).unwrap();
    assert!(!w.graph.has_node("b"));
    assert!(!w.graph.has_edge("a", "b"));
    set_node_data(&w.db, &mut w.graph, &w.schema, "a", "status", "deleted").unwrap();
    assert!(!w.graph.has_node("a"));
    let r = set_node_data(&w.db, &mut w.graph, &w.schema, "a", "k", "v");
    assert!(matches!(r, Err(ServiceError::NotFound(_))));
}

#[test]
fn deleting_a_node_removes_its_eight_edges() {
    let mut w = world();
    node(&mut w, "hub", &[]);
    for i in 0..5 {
        let id = format!("out{}", i);
        node(&mut w, &id, &[]);
        edge(&mut w, "hub", &id, &[]);
    }
    for i in 0..3 {
        let id = format!("in{}", i);
        node(&mut w, &id, &[]);
        edge(&mut w, &id, "hub", &[]);
    }
    assert!(check_path(&w.graph, "in1", "out4"));
    delete_node(&w.db, &mut w.graph, "hub").unwrap();
    assert!(!w.graph.has_node("hub"));
    assert!(!check_path(&w.graph, "in1", "out4"));
    assert!(get_node_from_db(&w.db, "hub", &w.schema, true).unwrap().is_none());
    assert!(list_edges_from_db(&w.db, None, None, None, &w.schema, true).unwrap().is_empty());
    assert_eq!(list_nodes_from_db(&w.db, None, &w.schema, true).unwrap().len(), 8);
    let r = delete_node(&w.db, &mut w.graph, "nobody");
    assert!(matches!(r, Err(ServiceError::NotFound(_))));
    let reloaded = load_graph(&w.db, &w.schema).unwrap();
    assert_eq!(reloaded.node_count(), 8);
}

#[test]
fn whitelist_upsert_rebuilds_the_cache() {
    let mut w = world();
    node(&mut w, "t", &[("type", "Team"), ("rating", "600"), ("extra", "x")]);
    assert!(w.graph.get_node("t").unwrap().data.get("extra").is_some());
    let fields = vec![" rating".to_string(), "type".to_string(), "type".to_string()];
    let r = upsert_schema(&w.db, &mut w.graph, &mut w.schema, " Node ", &fields);
    assert!(matches!(r, Err(ServiceError::BadRequest(_))));
    let r = upsert_schema(&w.db, &mut w.graph, &mut w.schema, "NODE", &fields);
    assert!(matches!(r, Err(ServiceError::BadRequest(_))));
    assert!(!w.schema.node_defined);
    upsert_schema(&w.db, &mut w.graph, &mut w.schema, "node", &fields).unwrap();
    assert!(w.schema.node_defined);
    assert_eq!(w.schema.node_fields, vec!["rating".to_string(), "type".to_string()]);
    let cached = w.graph.get_node("t").unwrap();
    assert_eq!(cached.data.len(), 2);
    assert!(cached.data.get("extra").is_none());
    node(&mut w, "u", &[("type", "Team"), ("extra", "y")]);
    assert!(w.graph.get_node("u").unwrap().data.get("extra").is_none());
    let plain = list_nodes_from_db(&w.db, Some("Team"), &w.schema, false).unwrap();
    assert!(plain.iter().all(|n| n.data.get("extra").is_none()));
    let full = list_nodes_from_db(&w.db, Some("Team"), &w.schema, true).unwrap();
    assert!(full.iter().all(|n| n.data.get("extra").is_some()));

    let r = upsert_schema(&w.db, &mut w.graph, &mut w.schema, "vertex", &fields);
    assert!(matches!(r, Err(ServiceError::BadRequest(_))));
    let r = upsert_schema(&w.db, &mut w.graph, &mut w.schema, "edge", &vec![" ".to_string()]);
    match r {
        Err(ServiceError::BadRequest(text)) => assert_eq!(text, "fields must not be empty"),
        _ => panic!("empty whitelist accepted"),
    }
    let views = get_schema(&w.schema, None).unwrap();
    assert_eq!(views.len(), 2);
    assert_eq!(views[0].entity, "node");
    assert_eq!(views[0].fields, vec!["rating".to_string(), "type".to_string()]);
    assert_eq!(views[1].entity, "edge");
    assert!(views[1].fields.is_empty());
    assert_eq!(get_schema(&w.schema, Some("edge")).unwrap().len(), 1);
    assert!(matches!(get_schema(&w.schema, Some("Node")), Err(ServiceError::BadRequest(_))));
}

#[test]
fn csv_sets_trim_and_drop_empty_items() {
    let set = parse_csv_set(&Some(" a, b ,,c ,".to_string()));
    assert!(set.contains("a"));
    assert!(set.contains("b"));
    assert!(set.contains("c"));
    assert!(!set.contains(""));
    assert!(!set.contains(" a"));
    assert!(parse_csv_set(&None).is_empty());
    assert!(parse_csv_set(&Some(" , ,".to_string())).is_empty());
}

#[test]
fn two_hop_paths_skip_excluded_and_direct_candidates() {
    let mut w = world();
    for id in ["me", "f1", "f2", "blocked", "c1", "c2", "c3"] {
        node(&mut w, id, &[]);
    }
    edge(&mut w, "me", "f1", &[("weight", "2")]);
    edge(&mut w, "me", "f2", &[]);
    edge(&mut w, "me", "blocked", &[("type", "mute")]);
    edge(&mut w, "f1", "c1", &[("weight", "3")]);
    edge(&mut w, "f1", "f2", &[]);
    edge(&mut w, "f1", "me", &[]);
    edge(&mut w, "f1", "blocked", &[]);
    edge(&mut w, "f2", "c1", &[]);
    edge(&mut w, "f2", "c2", &[("type", "mute")]);
    edge(&mut w, "f2", "c3", &[]);
    let excluded_types = parse_csv_set(&Some("mute".to_string()));
    let excluded_ids = parse_csv_set(&Some("c3".to_string()));
    assert!(is_edge_type_excluded(&w.graph.get_node("me").unwrap().neighbors[2], &excluded_types));
    assert!(!is_edge_type_excluded(&w.graph.get_node("me").unwrap().neighbors[0], &excluded_types));
    let hits = find_two_hop_paths(&w.graph, "me", &excluded_types, &excluded_ids).unwrap();
    let seen: Vec<(String, Option<String>, Option<String>)> = hits
        .iter()
        .map(|h| (h.candidate.clone(), h.first_weight.clone(), h.second_weight.clone()))
        .collect();
    assert_eq!(
        seen,
        vec![
            ("c1".to_string(), Some("2".to_string()), Some("3".to_string())),
            ("c1".to_string(), None, None)
        ]
    );
    assert!(find_two_hop_paths(&w.graph, "nobody", &excluded_types, &excluded_ids).is_none());
    let none = IdSet::new();
    let all = find_two_hop_paths(&w.graph, "me", &none, &none).unwrap();
    let ids: Vec<&str> = all.iter().map(|h| h.candidate.as_str()).collect();
    assert_eq!(ids, vec!["c1", "c1", "c2", "c3"]);
}

#[test]
fn candidates_are_ranked_by_score_then_id() {
    let item = |id: &str, score: u64| Ranked { id: id.to_string(), score, data: PropertyMap::new() };
    let ranked = rank_candidates(
        vec![item("b", 5), item("c", 9), item("a", 5), item("d", 1), item("aa", 5)],
        None,
    );
    let order: Vec<(&str, u64)> = ranked.iter().map(|r| (r.id.as_str(), r.score)).collect();
    assert_eq!(order, vec![("c", 9), ("a", 5), ("aa", 5), ("b", 5), ("d", 1)]);
    let cut = rank_candidates(vec![item("b", 5), item("c", 9), item("a", 5)], Some(2));
    let order: Vec<&str> = cut.iter().map(|r| r.id.as_str()).collect();
    assert_eq!(order, vec!["c", "a"]);
    assert!(rank_candidates(vec![item("b", 5)], Some(0)).is_empty());
    assert!(rank_candidates(Vec::new(), Some(3)).is_empty());
}

#[test]
fn typed_candidates_and_hydration() {
    let mut w = world();
    node(&mut w, "t", &[("type", "Team"), ("rating", "600"), ("extra", "x")]);
    node(&mut w, "u", &[("type", "User")]);
    upsert_schema(&w.db, &mut w.graph, &mut w.schema, "node", &vec!["type".to_string()]).unwrap();
    assert!(typed_candidate(&w.graph, "u", "Team").is_none());
    assert!(typed_candidate(&w.graph, "nobody", "Team").is_none());
    let data = typed_candidate(&w.graph, "t", "Team").unwrap();
    assert_eq!(data.len(), 1);
    let items = vec![Ranked { id: "t".to_string(), score: 1, data }];
    let full = hydrate_candidates(&w.db, items).unwrap();
    assert_eq!(full.len(), 1);
    assert_eq!(full[0].data.get("extra").map(|s| s.as_str()), Some("x"));
    assert_eq!(full[0].score, 1);
    assert!(hydrate_candidates(&w.db, Vec::new()).unwrap().is_empty());
}

#[test]
fn geohash_of_known_points() {
    assert_eq!(encode_geohash(-235505000, -466333000, 6), "6gyf4b");
    assert_eq!(encode_geohash(-235505000, -466333000, 12), "6gyf4bf8mke5");
    assert_eq!(encode_geohash(407128000, -740060000, 6), "dr5reg");
    assert_eq!(encode_geohash(0, 0, 1), "s");
    assert_eq!(encode_geohash(0, 0, 0), "s");
    assert_eq!(encode_geohash(900000000, 1800000000, 3), "zzz");
    assert_eq!(encode_geohash(-900000000, -1800000000, 3), "000");
    assert_eq!(encode_geohash(0, 0, 2), "s0");
    assert_eq!(encode_geohash(0, 0, 13), "s000000000000");
    assert_eq!(encode_geohash(0, 0, 40).len(), 40);
    let long = encode_geohash(-235505000, -466333000, 30);
    assert_eq!(long.len(), 30);
    assert!(long.starts_with("6gyf4bf8mke5"));
    assert!(long.bytes().all(|c| b"0123456789bcdefghjkmnpqrstuvwxyz".contains(&c)));
    assert_eq!(encode_geohash(900000000, 1800000000, 14), "zzzzzzzzzzzzzz");
}

#[test]
fn precision_follows_the_radius_table() {
    assert_eq!(geohash_precision_for_radius(-5), 9);
    assert_eq!(geohash_precision_for_radius(0), 9);
    assert_eq!(geohash_precision_for_radius(4770), 9);
    assert_eq!(geohash_precision_for_radius(4771), 8);
    assert_eq!(geohash_precision_for_radius(38200), 8);
    assert_eq!(geohash_precision_for_radius(153000), 7);
    assert_eq!(geohash_precision_for_radius(1220000), 6);
    assert_eq!(geohash_precision_for_radius(4890000), 5);
    assert_eq!(geohash_precision_for_radius(10000000), 4);
    assert_eq!(geohash_precision_for_radius(39100000), 4);
    assert_eq!(geohash_precision_for_radius(156000000), 3);
    assert_eq!(geohash_precision_for_radius(1250000000), 2);
    assert_eq!(geohash_precision_for_radius(1250000001), 1);
    assert_eq!(geohash_precision_for_radius(5000000000), 1);
    assert_eq!(geohash_precision_for_radius(i64::MAX), 1);
    let mut last = 9;
    for radius in [1i64, 5000, 40000, 200000, 2000000, 5000000, 40000000, 200000000, 2000000000] {
        let precision = geohash_precision_for_radius(radius);
        assert!(precision <= last);
        last = precision;
    }
}

#[test]
fn nearby_finds_the_near_gym_only() {
    let mut w = world();
    let near = encode_geohash(-235505000, -466333000, 6);
    let far = encode_geohash(407128000, -740060000, 6);
    node(&mut w, "gym:near", &[("type", "Gym"), ("geo_hash", near.as_str())]);
    node(&mut w, "gym:far", &[("type", "Gym"), ("geo_hash", far.as_str())]);
    let none = IdSet::new();
    let prefix = nearby_prefix(Some(&near[..3]), None, None).unwrap();
    let found = list_nearby(&w.db, &w.schema, "Gym", None, &prefix, &none, None, true).unwrap();
    assert_eq!(found.len(), 1);
    assert_eq!(found[0].id, "gym:near");
    let prefix = nearby_prefix(None, Some((-235505000, -466333000)), Some(10000000)).unwrap();
    assert_eq!(prefix, "6gyf");
    let found = list_nearby(&w.db, &w.schema, "Gym", None, &prefix, &none, None, true).unwrap();
    assert_eq!(found.len(), 1);
    assert_eq!(found[0].id, "gym:near");
    assert_eq!(nearby_prefix(None, Some((-235505000, -466333000)), None).unwrap(), "6gyf");
    assert!(matches!(nearby_prefix(Some(""), None, None), Err(ServiceError::BadRequest(_))));
    assert!(matches!(nearby_prefix(None, None, Some(5)), Err(ServiceError::BadRequest(_))));
}

#[test]
fn nearby_leaves_out_excluded_nodes_before_cutting() {
    let mut w = world();
    node(&mut w, "me", &[]);
    for id in ["g1", "g2", "g3", "g4"] {
        node(&mut w, id, &[("type", "Gym"), ("geo_hash", "6gyf4b")]);
    }
    edge(&mut w, "me", "g1", &[("type", "mute")]);
    edge(&mut w, "me", "g3", &[("type", "friend")]);
    let excluded = nearby_exclusions(&w.graph, Some("me"), &Some("mute".to_string()), &Some("g2".to_string())).unwrap();
    assert!(excluded.contains("g1"));
    assert!(excluded.contains("g2"));
    assert!(!excluded.contains("g3"));
    let found = list_nearby(&w.db, &w.schema, "Gym", Some("geo_hash"), "6gy", &excluded, Some(1), true).unwrap();
    let ids: Vec<&str> = found.iter().map(|n| n.id.as_str()).collect();
    assert_eq!(ids, vec!["g3"]);
    let found = list_nearby(&w.db, &w.schema, "Gym", None, "6gy", &excluded, None, true).unwrap();
    let ids: Vec<&str> = found.iter().map(|n| n.id.as_str()).collect();
    assert_eq!(ids, vec!["g3", "g4"]);
    let r = nearby_exclusions(&w.graph, Some("nobody"), &None, &None);
    assert!(matches!(r, Err(ServiceError::NotFound(_))));
    assert!(nearby_exclusions(&w.graph, None, &Some("mute".to_string()), &None).unwrap().is_empty());
}

fn geo_point(value: &str) -> Option<(f64, f64)> {
    let mut parts = value.split(',');
    let lat = parts.next()?.trim().parse::<f64>().ok()?;
    let lon = parts.next()?.trim().parse::<f64>().ok()?;
    Some((lat, lon))
}

fn distance_km(origin: (f64, f64), point: (f64, f64)) -> f64 {
    let (lat1, lon1) = (origin.0.to_radians(), origin.1.to_radians());
    let (lat2, lon2) = (point.0.to_radians(), point.1.to_radians());
    let a = ((lat2 - lat1) / 2.0).sin().powi(2)
        + lat1.cos() * lat2.cos() * ((lon2 - lon1) / 2.0).sin().powi(2);
    6371.0 * 2.0 * a.sqrt().atan2((1.0 - a).sqrt())
}

#[test]
fn recommendations_within_ten_kilometres_name_the_near_team_only() {
    let mut w = world();
    node(&mut w, "user:me", &[("type", "User"), ("location", "-23.5505,-46.6333")]);
    node(&mut w, "user:friend", &[("type", "User")]);
    node(&mut w, "team:near", &[("type", "Team"), ("location", "-23.5510,-46.6340")]);
    node(&mut w, "team:far", &[("type", "Team"), ("location", "-22.9068,-43.1729")]);
    edge(&mut w, "user:me", "user:friend", &[]);
    edge(&mut w, "user:friend", "team:near", &[]);
    edge(&mut w, "user:friend", "team:far", &[]);
    let none = IdSet::new();
    let hits = find_two_hop_paths(&w.graph, "user:me", &none, &none).unwrap();
    let candidates: Vec<&str> = hits.iter().map(|hit| hit.candidate.as_str()).collect();
    assert_eq!(candidates, vec!["team:near", "team:far"]);
    let origin = geo_point(w.graph.get_node("user:me").unwrap().data.get("location").unwrap()).unwrap();
    let mut within = Vec::new();
    for hit in &hits {
        let data = typed_candidate(&w.graph, &hit.candidate, "Team").expect("a team");
        let point = geo_point(data.get("location").unwrap()).unwrap();
        if distance_km(origin, point) <= 10.0 {
            within.push(Ranked { id: hit.candidate.clone(), score: 1, data });
        }
    }
    let ranked = hydrate_candidates(&w.db, rank_candidates(within, None)).unwrap();
    assert_eq!(ranked.len(), 1);
    assert_eq!(ranked[0].id, "team:near");
    assert_eq!(ranked[0].data.get("status").map(|s| s.as_str()), Some("active"));
}

#[test]
fn lifecycle_grows_the_graph_over_phases() {
    let mut w = world();
    let phases = [(1, 1, 0), (3, 2, 2), (5, 3, 4), (8, 4, 8), (13, 6, 13)];
    let mut total_users = 0;
    let mut total_teams = 0;
    let mut total_posts = 0;
    let mut total_memberships = 0;
    let mut total_authors = 0;
    for (phase_index, (users, teams, posts)) in phases.iter().enumerate() {
        let phase = phase_index + 1;
        let (users, teams, posts) = (*users, *teams, *posts);
        let label = phase.to_string();
        for i in 0..teams {
            node(&mut w, &format!("team:{}:{}", phase, i), &[("type", "Team"), ("phase", &label)]);
        }
        for i in 0..users {
            node(&mut w, &format!("user:{}:{}", phase, i), &[("type", "User"), ("phase", &label)]);
        }
        for i in 0..posts {
            node(&mut w, &format!("post:{}:{}", phase, i), &[("type", "Post"), ("phase", &label)]);
        }
        let team_count: usize = teams.max(1);
        let user_count: usize = users.max(1);
        for i in 0..users {
            let user = format!("user:{}:{}", phase, i);
            let team = format!("team:{}:{}", phase, i % team_count);
            edge(&mut w, &user, &team, &[("type", "member")]);
            total_memberships += 1;
        }
        for i in 0..posts {
            let post = format!("post:{}:{}", phase, i);
            let user = format!("user:{}:{}", phase, i % user_count);
            let team = format!("team:{}:{}", phase, i % team_count);
            edge(&mut w, &user, &post, &[("type", "author")]);
            edge(&mut w, &team, &post, &[("type", "host")]);
            total_authors += 1;
        }
        total_users += users;
        total_teams += teams;
        total_posts += posts;
        let users_now = list_nodes_from_db(&w.db, Some("User"), &w.schema, true).unwrap();
        let teams_now = list_nodes_from_db(&w.db, Some("Team"), &w.schema, true).unwrap();
        let posts_now = list_nodes_from_db(&w.db, Some("Post"), &w.schema, true).unwrap();
        assert_eq!(users_now.len(), total_users, "phase {} user count mismatch", phase);
        assert_eq!(teams_now.len(), total_teams, "phase {} team count mismatch", phase);
        assert_eq!(posts_now.len(), total_posts, "phase {} post count mismatch", phase);
        let memberships_now =
            list_edges_from_db(&w.db, Some("member"), None, None, &w.schema, true).unwrap();
        let authors_now =
            list_edges_from_db(&w.db, Some("author"), None, None, &w.schema, true).unwrap();
        assert_eq!(
            memberships_now.len(),
            total_memberships,
            "phase {} membership count mismatch",
            phase
        );
        assert_eq!(authors_now.len(), total_authors, "phase {} author count mismatch", phase);
        let reloaded = load_graph(&w.db, &w.schema).unwrap();
        assert_eq!(reloaded.node_count(), total_users + total_teams + total_posts);
        assert_eq!(w.graph.node_count(), reloaded.node_count());
    }
    assert!(check_path(&w.graph, "team:5:0", "post:5:12"));
    assert!(!check_path(&w.graph, "post:5:12", "team:5:0"));
}

#[test]
fn a_store_without_tables_gives_storage_errors() {
    let db = redb::Database::builder()
        .create_with_backend(redb::backends::InMemoryBackend::new())
        .expect("database");
    let mut graph = Graph::new();
    let schema = SchemaCache::new();
    let r = delete_node(&db, &mut graph, "a");
    match r {
        Err(ServiceError::Storage(text)) => assert!(!text.is_empty()),
        _ => panic!("a delete without tables went through"),
    }
    let none = IdSet::new();
    let r = list_nearby(&db, &schema, "Gym", None, "6gy", &none, None, true);
    assert!(matches!(r, Err(ServiceError::Storage(_))));
    let items = vec![Ranked { id: "t".to_string(), score: 1, data: PropertyMap::new() }];
    assert!(matches!(hydrate_candidates(&db, items), Err(ServiceError::Storage(_))));
    assert!(list_nodes_from_db(&db, None, &schema, true).is_err());
    assert_eq!(graph.node_count(), 0);
}

#[test]
fn reads_default_to_the_stored_properties() {
    let mut w = world();
    node(&mut w, "t", &[("type", "Team"), ("extra", "x")]);
    node(&mut w, "u", &[("type", "User")]);
    edge(&mut w, "u", "t", &[("type", "member"), ("since", "2020")]);
    upsert_schema(&w.db, &mut w.graph, &mut w.schema, "node", &vec!["type".to_string()]).unwrap();
    upsert_schema(&w.db, &mut w.graph, &mut w.schema, "edge", &vec!["type".to_string()]).unwrap();
    let full = elo::service::get_node(&w.db, &w.schema, "t", None).unwrap();
    assert_eq!(full.id, "t");
    assert_eq!(full.data.get("extra").map(|s| s.as_str()), Some("x"));
    let plain = elo::service::get_node(&w.db, &w.schema, "t", Some(false)).unwrap();
    assert!(plain.data.get("extra").is_none());
    assert!(matches!(
        elo::service::get_node(&w.db, &w.schema, "nobody", None),
        Err(ServiceError::NotFound(_))
    ));
    let users = elo::service::list_nodes(&w.db, &w.schema, Some("User"), None).unwrap();
    assert_eq!(users.len(), 1);
    assert_eq!(users[0].edges.len(), 1);
    assert_eq!(users[0].edges[0].data.get("since").map(|s| s.as_str()), Some("2020"));
    let users = elo::service::list_nodes(&w.db, &w.schema, Some("User"), Some(false)).unwrap();
    assert!(users[0].edges[0].data.get("since").is_none());
    let edges = elo::service::list_edges(&w.db, &w.schema, None, Some("u"), None, Some(false)).unwrap();
    assert_eq!(edges.len(), 1);
    assert!(edges[0].data.get("since").is_none());
    assert_eq!(edges[0].data.get("type").map(|s| s.as_str()), Some("member"));
    delete_node(&w.db, &mut w.graph, "t").unwrap();
    assert!(matches!(
        elo::service::get_node(&w.db, &w.schema, "t", None),
        Err(ServiceError::NotFound(_))
    ));
}

#[test]
fn only_the_key_of_the_service_opens_it() {
    assert!(elo::service::is_authorized(Some("secret"), "secret"));
    assert!(!elo::service::is_authorized(Some("Secret"), "secret"));
    assert!(!elo::service::is_authorized(Some(""), "secret"));
    assert!(!elo::service::is_authorized(None, "secret"));
}

fn stored_status(w: &World, from: &str, to: &str) -> Option<String> {
    let txn = redb::ReadableDatabase::begin_read(&w.db).unwrap();
    let def: redb::TableDefinition<&str, &str> = redb::TableDefinition::new("edge_data");
    let table = txn.open_table(def).unwrap();
    let key = format!("{}\x1f{}\x1fstatus", from, to);
    table.get(key.as_str()).unwrap().map(|value| value.value().to_string())
}

#[test]
fn a_block_edge_is_deleted_in_both_directions_whatever_the_whitelist() {
    let mut w = world();
    node(&mut w, "a", &[]);
    node(&mut w, "b", &[]);
    edge(&mut w, "a", "b", &[("type", "block"), ("weight", "2")]);
    let fields = vec!["weight".to_string()];
    upsert_schema(&w.db, &mut w.graph, &mut w.schema, "edge", &fields).unwrap();
    assert!(w.graph.has_edge("a", "b"));
    assert!(w.graph.has_edge("b", "a"));
    assert_eq!(w.graph.edge_type("a", "b"), None);
    delete_edge(&w.db, &mut w.graph, "a", "b").unwrap();
    assert!(!w.graph.has_edge("a", "b"));
    assert!(!w.graph.has_edge("b", "a"));
    assert_eq!(stored_status(&w, "a", "b").as_deref(), Some("deleted"));
    assert_eq!(stored_status(&w, "b", "a").as_deref(), Some("deleted"));
    let reloaded = load_graph(&w.db, &w.schema).unwrap();
    assert!(!reloaded.has_edge("a", "b"));
    assert!(!reloaded.has_edge("b", "a"));
}

#[test]
fn a_plain_edge_is_deleted_in_one_direction() {
    let mut w = world();
    node(&mut w, "a", &[]);
    node(&mut w, "b", &[]);
    edge(&mut w, "a", "b", &[("type", "friend")]);
    edge(&mut w, "b", "a", &[("type", "friend")]);
    delete_edge(&w.db, &mut w.graph, "a", "b").unwrap();
    assert!(!w.graph.has_edge("a", "b"));
    assert!(w.graph.has_edge("b", "a"));
    assert_eq!(stored_status(&w, "a", "b").as_deref(), Some("deleted"));
    assert_eq!(stored_status(&w, "b", "a").as_deref(), Some("active"));
    let r = delete_edge(&w.db, &mut w.graph, "a", "zz");
    match r {
        Err(error) => assert_eq!(error.message(), "edge not found"),
        Ok(()) => panic!("deleted an edge that is not there"),
    }
    assert!(w.graph.has_edge("b", "a"));
}

#[test]
fn a_node_created_as_deleted_is_written_and_not_cached() {
    let mut w = world();
    node(&mut w, "gone", &[("status", "deleted"), ("type", "User")]);
    assert!(!w.graph.has_node("gone"));
    assert!(get_node_from_db(&w.db, "gone", &w.schema, true).unwrap().is_none());
    let reloaded = load_graph(&w.db, &w.schema).unwrap();
    assert!(!reloaded.has_node("gone"));
    node(&mut w, "here", &[("type", "User"), ("name", "Ann")]);
    assert!(w.graph.has_node("here"));
    let stored = get_node_from_db(&w.db, "here", &w.schema, true).unwrap().unwrap();
    assert_eq!(stored.data.len(), 3);
    assert_eq!(stored.data.get("name").map(|s| s.as_str()), Some("Ann"));
}

#[test]
fn an_edge_written_as_deleted_is_not_cached() {
    let mut w = world();
    node(&mut w, "a", &[]);
    node(&mut w, "b", &[]);
    edge(&mut w, "a", "b", &[("status", "deleted")]);
    assert!(!w.graph.has_edge("a", "b"));
    assert_eq!(stored_status(&w, "a", "b").as_deref(), Some("deleted"));
    edge(&mut w, "a", "b", &[("type", "block"), ("status", "deleted")]);
    assert!(!w.graph.has_edge("a", "b"));
    assert!(!w.graph.has_edge("b", "a"));
    assert_eq!(stored_status(&w, "b", "a").as_deref(), Some("deleted"));
    edge(&mut w, "a", "b", &[("type", "block")]);
    assert!(w.graph.has_edge("a", "b"));
    assert!(w.graph.has_edge("b", "a"));
    let patch = props(&[("type", "block"), ("status", "deleted")]);
    update_edge_data(&w.db, &mut w.graph, &w.schema, "a", "b", &patch).unwrap();
    assert!(!w.graph.has_edge("a", "b"));
    assert!(!w.graph.has_edge("b", "a"));
    assert_eq!(stored_status(&w, "a", "b").as_deref(), Some("deleted"));
    assert_eq!(stored_status(&w, "b", "a").as_deref(), Some("deleted"));
}

#[test]
fn an_operation_is_admitted_where_the_cache_holds_what_it_needs() {
    let mut w = world();
    node(&mut w, "a", &[]);
    node(&mut w, "b", &[]);
    edge(&mut w, "a", "b", &[]);
    assert!(admit_node(&w.graph, "a").is_ok());
    assert!(matches!(admit_node(&w.graph, "zz"), Err(ServiceError::NotFound(_))));
    assert!(admit_ends(&w.graph, "a", "b").is_ok());
    assert!(matches!(admit_ends(&w.graph, "a", "zz"), Err(ServiceError::NotFound(_))));
    assert!(matches!(admit_ends(&w.graph, "zz", "a"), Err(ServiceError::NotFound(_))));
    assert!(admit_edge(&w.graph, "a", "b").is_ok());
    match admit_edge(&w.graph, "b", "a") {
        Err(error) => assert_eq!(error.message(), "edge not found"),
        Ok(()) => panic!("admitted an edge that is not there"),
    }
}

#[test]
fn the_store_is_written_before_the_cache_learns_of_it() {
    let mut w = world();
    let data = props(&[("type", "User"), ("name", "Ann")]);
    store_node(&w.db, "a", &data).unwrap();
    assert!(!w.graph.has_node("a"));
    let stored = get_node_from_db(&w.db, "a", &w.schema, true).unwrap().unwrap();
    assert_eq!(stored.data.len(), 3);
    assert_eq!(stored.data.get("status").map(|s| s.as_str()), Some("active"));
    cache_created_node(&mut w.graph, &w.schema, "a", &data);
    let cached = w.graph.get_node("a").unwrap();
    assert_eq!(cached.data.len(), 3);
    assert_eq!(cached.data.get("status").map(|s| s.as_str()), Some("active"));

    store_node(&w.db, "b", &payload_or_empty(None)).unwrap();
    cache_created_node(&mut w.graph, &w.schema, "b", &payload_or_empty(None));
    let block = block_payload(Some(props(&[("type", "friend"), ("weight", "2")])));
    assert_eq!(block.get("type").map(|s| s.as_str()), Some("block"));
    assert_eq!(block.len(), 2);
    store_edge(&w.db, "a", "b", &block).unwrap();
    assert!(!w.graph.has_edge("a", "b"));
    let listed = list_edges_from_db(&w.db, None, None, None, &w.schema, true).unwrap();
    assert_eq!(listed.len(), 2);
    cache_created_edge(&mut w.graph, &w.schema, "a", "b", &block);
    assert!(w.graph.has_edge("a", "b"));
    assert!(w.graph.has_edge("b", "a"));
    assert_eq!(w.graph.edge_type("b", "a"), Some("block"));
}

#[test]
fn properties_are_stored_and_cached_in_two_steps() {
    let mut w = world();
    node(&mut w, "a", &[]);
    node(&mut w, "b", &[]);
    edge(&mut w, "a", "b", &[("type", "friend")]);
    store_node_property(&w.db, "a", "name", "Ann").unwrap();
    assert!(w.graph.get_node("a").unwrap().data.get("name").is_none());
    cache_node_property(&mut w.graph, &w.schema, "a", "name", "Ann");
    assert_eq!(w.graph.get_node("a").unwrap().data.get("name").map(|s| s.as_str()), Some("Ann"));
    let patch = props(&[("name", "Bea"), ("rating", "5")]);
    store_node_properties(&w.db, "a", &patch).unwrap();
    cache_node_patch(&mut w.graph, &w.schema, "a", &patch);
    assert_eq!(w.graph.get_node("a").unwrap().data.get("name").map(|s| s.as_str()), Some("Bea"));
    let stored = get_node_from_db(&w.db, "a", &w.schema, true).unwrap().unwrap();
    assert_eq!(stored.data.get("rating").map(|s| s.as_str()), Some("5"));

    store_edge_property(&w.db, "a", "b", "type", "block").unwrap();
    assert_eq!(stored_status(&w, "b", "a").as_deref(), Some("active"));
    cache_edge_property(&mut w.graph, &w.schema, "a", "b", "type", "block");
    assert_eq!(w.graph.edge_type("a", "b"), Some("block"));
    assert!(w.graph.has_edge("b", "a"));
    let patch = props(&[("weight", "3")]);
    store_edge_properties(&w.db, "a", "b", &patch).unwrap();
    cache_edge_patch(&mut w.graph, &w.schema, "a", "b", &patch);
    assert_eq!(w.graph.edge_type("a", "b"), Some("block"));
    cache_node_property(&mut w.graph, &w.schema, "b", "status", "deleted");
    assert!(!w.graph.has_node("b"));
    assert!(!w.graph.has_edge("a", "b"));
}

#[test]
fn deletions_are_stored_and_cached_in_two_steps() {
    let mut w = world();
    node(&mut w, "a", &[]);
    node(&mut w, "b", &[]);
    edge(&mut w, "a", "b", &[("type", "block")]);
    assert!(store_edge_deletion(&w.db, "a", "b", false).unwrap());
    assert!(w.graph.has_edge("a", "b"));
    unlink_cached(&mut w.graph, "a", "b", true);
    assert!(!w.graph.has_edge("a", "b"));
    assert!(!w.graph.has_edge("b", "a"));
    edge(&mut w, "a", "b", &[("type", "friend")]);
    assert!(!store_edge_deletion(&w.db, "a", "b", false).unwrap());
    assert!(store_edge_deletion(&w.db, "a", "b", true).unwrap());
    node(&mut w, "c", &[]);
    edge(&mut w, "c", "c", &[("type", "block")]);
    assert!(!store_edge_deletion(&w.db, "c", "c", true).unwrap());
    assert!(matches!(
        store_edge_deletion(&w.db, "a", "zz", false),
        Err(ServiceError::NotFound(_))
    ));
    store_node_deletion(&w.db, "a").unwrap();
    assert!(get_node_from_db(&w.db, "a", &w.schema, true).unwrap().is_none());
    match store_node_deletion(&w.db, "zz") {
        Err(error) => assert_eq!(error.message(), "node not found"),
        Ok(()) => panic!("deleted a node that is not there"),
    }
}

#[test]
fn a_whitelist_is_checked_stored_set_and_loaded() {
    let mut w = world();
    node(&mut w, "t", &[("type", "Team"), ("extra", "x")]);
    let fields = vec![" type ".to_string(), "".to_string()];
    assert!(matches!(checked_whitelist("Node", &fields), Err(ServiceError::BadRequest(_))));
    assert!(matches!(
        checked_whitelist("node", &vec!["  ".to_string()]),
        Err(ServiceError::BadRequest(_))
    ));
    let (kind, kept) = checked_whitelist("node", &fields).unwrap();
    assert_eq!(kind, EntityKind::Node);
    assert_eq!(kept, vec!["type".to_string()]);
    store_whitelist(&w.db, kind, &kept).unwrap();
    assert!(!w.schema.node_defined);
    set_whitelist(&mut w.schema, kind, kept);
    assert!(w.schema.node_defined);
    assert!(!w.schema.edge_defined);
    assert_eq!(w.schema.node_fields, vec!["type".to_string()]);
    let loaded = reload_cache(&w.db, &w.schema).unwrap();
    assert!(loaded.get_node("t").unwrap().data.get("extra").is_none());
    assert_eq!(loaded.get_node("t").unwrap().data.get("type").map(|s| s.as_str()), Some("Team"));
    let (again, _) = start(&w.db).unwrap();
    assert_eq!(again.node_fields, vec!["type".to_string()]);
}

#[test]
fn requests_that_say_nothing_get_the_usual() {
    assert!(hydration(None));
    assert!(hydration(Some(true)));
    assert!(!hydration(Some(false)));
    assert_eq!(elo::query::key_or(None, elo::query::GEO_KEY), "location");
    assert_eq!(elo::query::key_or(None, elo::query::NUM_KEY), "rating");
    assert_eq!(elo::query::key_or(Some("place"), elo::query::GEO_KEY), "place");
}

#[test]
fn the_cache_holds_what_is_active_and_nothing_else() {
    let mut w = world();
    node(&mut w, "paused", &[("status", "paused")]);
    assert!(!w.graph.has_node("paused"));
    node(&mut w, "a", &[("status", "active")]);
    node(&mut w, "b", &[]);
    node(&mut w, "c", &[]);
    assert!(w.graph.has_node("a"));
    edge(&mut w, "a", "b", &[("status", "paused")]);
    assert!(!w.graph.has_edge("a", "b"));
    edge(&mut w, "a", "c", &[]);
    edge(&mut w, "b", "c", &[]);
    set_edge_data(&w.db, &mut w.graph, &w.schema, "a", "c", "status", "paused").unwrap();
    assert!(!w.graph.has_edge("a", "c"));
    let patch = props(&[("status", "held"), ("weight", "2")]);
    update_edge_data(&w.db, &mut w.graph, &w.schema, "b", "c", &patch).unwrap();
    assert!(!w.graph.has_edge("b", "c"));
    set_node_data(&w.db, &mut w.graph, &w.schema, "c", "status", "paused").unwrap();
    assert!(!w.graph.has_node("c"));
    let patch = props(&[("status", "held")]);
    update_node_data(&w.db, &mut w.graph, &w.schema, "b", &patch).unwrap();
    assert!(!w.graph.has_node("b"));
    set_node_data(&w.db, &mut w.graph, &w.schema, "a", "status", "active").unwrap();
    assert!(w.graph.has_node("a"));
    let reloaded = load_graph(&w.db, &w.schema).unwrap();
    assert_eq!(reloaded.node_count(), w.graph.node_count());
    assert!(reloaded.has_node("a"));
    assert!(!reloaded.has_node("b"));
    assert!(!reloaded.has_node("c"));
    assert!(!reloaded.has_node("paused"));
}

fn store_error() -> redb::Error {
    let db = redb::Database::builder()
        .create_with_backend(redb::backends::InMemoryBackend::new())
        .expect("database");
    let txn = redb::ReadableDatabase::begin_read(&db).unwrap();
    let def: redb::TableDefinition<&str, &str> = redb::TableDefinition::new("nowhere");
    match txn.open_table(def) {
        Ok(_) => panic!("a table that was never made"),
        Err(error) => error.into(),
    }
}

#[test]
fn each_answer_of_the_store_has_its_outcome() {
    assert_eq!(outcome(Ok(7)).unwrap(), 7);
    assert!(matches!(outcome::<u8>(Err(store_error())), Err(ServiceError::Storage(_))));
    assert!(node_deletion_outcome(Ok(true)).is_ok());
    assert!(matches!(node_deletion_outcome(Ok(false)), Err(ServiceError::NotFound(_))));
    assert!(matches!(node_deletion_outcome(Err(store_error())), Err(ServiceError::Storage(_))));
    assert_eq!(edge_deletion_outcome(Ok(Some(true))).unwrap(), true);
    assert_eq!(edge_deletion_outcome(Ok(Some(false))).unwrap(), false);
    assert!(matches!(edge_deletion_outcome(Ok(None)), Err(ServiceError::NotFound(_))));
    assert!(matches!(edge_deletion_outcome(Err(store_error())), Err(ServiceError::Storage(_))));
    let view = elo::views::NodeView {
        id: "a".to_string(),
        data: PropertyMap::new(),
        edges: Vec::new(),
    };
    assert_eq!(found_node(Ok(Some(view))).unwrap().id, "a");
    match found_node(Ok(None)) {
        Err(error) => assert_eq!(error.message(), "node not found"),
        Ok(_) => panic!("found a node that is not there"),
    }
    assert!(matches!(found_node(Err(store_error())), Err(ServiceError::Storage(_))));
}

#[test]
fn an_operation_ends_as_the_store_answered() {
    let mut w = world();
    node(&mut w, "a", &[]);
    node(&mut w, "b", &[]);
    edge(&mut w, "a", "b", &[]);
    let r = settle_created_node(&mut w.graph, &w.schema, "c", &props(&[]), Err(store_error()));
    assert!(matches!(r, Err(ServiceError::Storage(_))));
    assert!(!w.graph.has_node("c"));
    settle_created_node(&mut w.graph, &w.schema, "c", &props(&[]), Ok(())).unwrap();
    assert!(w.graph.has_node("c"));
    let r = settle_edge_deletion(&mut w.graph, "a", "b", false, Ok(None));
    assert!(matches!(r, Err(ServiceError::NotFound(_))));
    assert!(w.graph.has_edge("a", "b"));
    let r = settle_edge_deletion(&mut w.graph, "a", "b", false, Err(store_error()));
    assert!(matches!(r, Err(ServiceError::Storage(_))));
    assert!(w.graph.has_edge("a", "b"));
    settle_edge_deletion(&mut w.graph, "a", "b", false, Ok(Some(false))).unwrap();
    assert!(!w.graph.has_edge("a", "b"));
    let r = settle_node_deletion(&mut w.graph, "a", Ok(false));
    assert!(matches!(r, Err(ServiceError::NotFound(_))));
    assert!(w.graph.has_node("a"));
    let r = settle_node_deletion(&mut w.graph, "a", Err(store_error()));
    assert!(matches!(r, Err(ServiceError::Storage(_))));
    assert!(w.graph.has_node("a"));
    settle_node_deletion(&mut w.graph, "a", Ok(true)).unwrap();
    assert!(!w.graph.has_node("a"));
    let fields = vec!["type".to_string()];
    let r = settle_whitelist(&mut w.schema, EntityKind::Node, fields.clone(), Err(store_error()));
    assert!(matches!(r, Err(ServiceError::Storage(_))));
    assert!(!w.schema.node_defined);
    settle_whitelist(&mut w.schema, EntityKind::Node, fields, Ok(())).unwrap();
    assert!(w.schema.node_defined);
    let r = settle_reload(&mut w.graph, Err(store_error()));
    assert!(matches!(r, Err(ServiceError::Storage(_))));
    assert!(w.graph.has_node("b"));
    settle_reload(&mut w.graph, Ok(Graph::new())).unwrap();
    assert_eq!(w.graph.node_count(), 0);
}

#[test]
fn a_deleted_node_is_not_found_again() {
    let mut w = world();
    node(&mut w, "x", &[("type", "User")]);
    delete_node(&w.db, &mut w.graph, "x").unwrap();
    assert!(!w.graph.has_node("x"));
    let r = elo::service::get_node(&w.db, &w.schema, "x", None);
    assert!(matches!(r, Err(ServiceError::NotFound(_))));
    let listed = elo::service::list_nodes(&w.db, &w.schema, None, Some(true)).unwrap();
    assert!(listed.iter().all(|n| n.id != "x"));
    let listed = elo::service::list_nodes(&w.db, &w.schema, Some("User"), Some(false)).unwrap();
    assert!(listed.iter().all(|n| n.id != "x"));
    let r = delete_node(&w.db, &mut w.graph, "never");
    assert!(matches!(r, Err(ServiceError::NotFound(_))));
}

#[test]
fn paths_are_grouped_by_candidate_in_the_order_of_their_coming() {
    let hit = |candidate: &str, first: Option<&str>, second: Option<&str>| PathHit {
        candidate: candidate.to_string(),
        first_weight: first.map(|s| s.to_string()),
        second_weight: second.map(|s| s.to_string()),
    };
    let groups = group_paths(vec![
        hit("t2", Some("2"), None),
        hit("t1", None, None),
        hit("t2", Some("3"), Some("4")),
        hit("t3", None, Some("x")),
        hit("t1", Some("5"), None),
    ]);
    let names: Vec<&str> = groups.iter().map(|g| g.0.as_str()).collect();
    assert_eq!(names, vec!["t2", "t1", "t3"]);
    assert_eq!(
        groups[0].1,
        vec![(Some("2".to_string()), None), (Some("3".to_string()), Some("4".to_string()))]
    );
    assert_eq!(groups[1].1, vec![(None, None), (Some("5".to_string()), None)]);
    assert_eq!(groups[2].1, vec![(None, Some("x".to_string()))]);
    assert!(group_paths(Vec::new()).is_empty());
    assert!(admit_origin(false, false).is_ok());
    assert!(admit_origin(false, true).is_ok());
    assert!(admit_origin(true, true).is_ok());
    assert!(matches!(admit_origin(true, false), Err(ServiceError::BadRequest(_))));
}
