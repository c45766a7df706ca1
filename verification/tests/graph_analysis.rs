use sweetmcp_memory::confidence::ConfidenceLevel;
use sweetmcp_memory::item::SemanticItem;
use sweetmcp_memory::item_types::SemanticItemType;
use sweetmcp_memory::json::JsonValue;
use sweetmcp_memory::memory::SemanticMemory;
use sweetmcp_memory::relationship::{SemanticRelationship, SemanticRelationshipType};

fn rel(id: &str, source: &str, target: &str) -> SemanticRelationship {
    SemanticRelationship {
        id: id.to_string(),
        source_id: source.to_string(),
        target_id: target.to_string(),
        relationship_type: SemanticRelationshipType::IsA,
        confidence: ConfidenceLevel::High,
        created_at: 0,
        updated_at: 0,
        metadata: Vec::new(),
    }
}

/// a - b - c - d in a line, e alone.
fn line_graph() -> SemanticMemory {
    let mut m = SemanticMemory::new("g", "graph", "line");
    for id in ["a", "b", "c", "d", "e"] {
        m.add_item(SemanticItem::new(id, SemanticItemType::Concept, JsonValue::Null)).unwrap();
    }
    m.add_relationship(rel("ab", "a", "b")).unwrap();
    m.add_relationship(rel("bc", "b", "c")).unwrap();
    m.add_relationship(rel("cd", "c", "d")).unwrap();
    m
}

fn ids(items: &[&SemanticItem]) -> Vec<String> {
    items.iter().map(|i| i.id.clone()).collect()
}

#[test]
fn shortest_path_follows_the_line() {
    let m = line_graph();
    let path = m.find_shortest_path("a", "d").unwrap();
    let steps: Vec<&str> = path.iter().map(|r| r.id.as_str()).collect();
    assert_eq!(steps, vec!["ab", "bc", "cd"]);
    let back = m.find_shortest_path("d", "a").unwrap();
    assert_eq!(back.len(), path.len());
    assert!(m.find_shortest_path("a", "e").is_none());
    assert_eq!(m.find_shortest_path("b", "b").unwrap().len(), 0);
}

#[test]
fn shortest_path_takes_the_shortcut() {
    let mut m = line_graph();
    m.add_relationship(rel("ad", "a", "d")).unwrap();
    let path = m.find_shortest_path("a", "d").unwrap();
    assert_eq!(path.len(), 1);
    assert_eq!(path[0].id, "ad");
}

#[test]
fn components_split_the_isolated_item() {
    let m = line_graph();
    let comps = m.get_connectivity_components();
    assert_eq!(comps.len(), 2);
    assert_eq!(ids(&comps[0]).len(), 4);
    assert_eq!(ids(&comps[1]), vec!["e".to_string()]);
    assert!(!m.is_connected());
}

#[test]
fn connectivity_of_a_single_component() {
    let mut m = line_graph();
    m.add_relationship(rel("de", "d", "e")).unwrap();
    assert!(m.is_connected());
    assert_eq!(m.get_connectivity_components().len(), 1);
    let empty = SemanticMemory::new("x", "y", "z");
    assert!(empty.is_connected());
}

#[test]
fn connected_items_respect_the_depth() {
    let m = line_graph();
    let near = ids(&m.find_connected_items("a", 1));
    assert_eq!(near, vec!["b".to_string()]);
    let mut far = ids(&m.find_connected_items("a", 10));
    far.sort();
    assert_eq!(far, vec!["b".to_string(), "c".to_string(), "d".to_string()]);
}

#[test]
fn diameter_radius_and_centre() {
    let mut m = line_graph();
    m.remove_item("e").unwrap();
    assert_eq!(m.graph_diameter(), Some(3));
    assert_eq!(m.graph_radius(), Some(2));
    let mut centre = ids(&m.find_central_items());
    centre.sort();
    assert_eq!(centre, vec!["b".to_string(), "c".to_string()]);
}

#[test]
fn hubs_leaves_and_isolated_items() {
    let m = line_graph();
    let hubs: Vec<(String, usize)> = m.get_hub_items(2).iter().map(|(i, d)| (i.id.clone(), *d)).collect();
    assert_eq!(hubs, vec![("b".to_string(), 2), ("c".to_string(), 2)]);
    assert_eq!(ids(&m.get_leaf_items()), vec!["a".to_string(), "d".to_string()]);
    assert_eq!(ids(&m.get_isolated_items()), vec!["e".to_string()]);
}

#[test]
fn strongly_connected_components_follow_direction() {
    let mut m = line_graph();
    m.add_relationship(rel("ca", "c", "a")).unwrap();
    let sccs = m.get_strongly_connected_components();
    let mut sizes: Vec<usize> = sccs.iter().map(|c| c.len()).collect();
    sizes.sort();
    assert_eq!(sizes, vec![1, 1, 3]);
    let big = sccs.iter().find(|c| c.len() == 3).unwrap();
    let mut members: Vec<&str> = big.clone();
    members.sort();
    assert_eq!(members, vec!["a", "b", "c"]);
}

#[test]
fn relationship_index_lists_positions() {
    let mut m = line_graph();
    m.add_relationship(rel("loop", "b", "b")).unwrap();
    let index = m.rebuild_relationships_index();
    let lookup = |list: &Vec<(String, Vec<usize>)>, key: &str| -> Vec<usize> {
        list.iter().find(|(k, _)| k == key).map(|(_, v)| v.clone()).unwrap_or_default()
    };
    assert_eq!(lookup(&index.source_index, "b"), vec![1, 3]);
    assert_eq!(lookup(&index.target_index, "b"), vec![0, 3]);
    assert_eq!(lookup(&index.bidirectional_index, "b"), vec![0, 1, 3, 3]);
    assert_eq!(lookup(&index.source_index, "d"), Vec::<usize>::new());
}

#[test]
fn connected_items_at_depth_one_are_the_neighbours() {
    let mut m = line_graph();
    m.add_relationship(rel("ba", "b", "a")).unwrap();
    let found = ids(&m.find_connected_items("b", 1));
    assert!(found.contains(&"a".to_string()));
    assert!(found.contains(&"c".to_string()));
    assert!(!found.contains(&"d".to_string()));
    assert!(!found.contains(&"b".to_string()));
    assert!(m.find_connected_items("b", 0).is_empty());
}

#[test]
fn connected_items_pass_through_ids_without_items() {
    let mut m = SemanticMemory::new("g", "graph", "dangling");
    for id in ["a", "b"] {
        m.add_item(SemanticItem::new(id, SemanticItemType::Concept, JsonValue::Null)).unwrap();
    }
    m.relationships.push(rel("ax", "a", "x"));
    m.relationships.push(rel("xb", "x", "b"));
    assert_eq!(ids(&m.find_connected_items("a", 5)), vec!["b".to_string()]);
    assert!(m.is_connected());
    m.relationships.pop();
    assert!(m.find_connected_items("a", 5).is_empty());
    assert!(!m.is_connected());
}

#[test]
fn components_stop_at_ids_without_items() {
    let mut m = SemanticMemory::new("g", "graph", "dangling");
    for id in ["a", "b", "c"] {
        m.add_item(SemanticItem::new(id, SemanticItemType::Concept, JsonValue::Null)).unwrap();
    }
    m.relationships.push(rel("ax", "a", "x"));
    m.relationships.push(rel("xb", "x", "b"));
    m.relationships.push(rel("bc", "b", "c"));
    let comps: Vec<Vec<String>> = m.get_connectivity_components().iter().map(|c| ids(c)).collect();
    assert_eq!(comps, vec![vec!["a".to_string()], vec!["b".to_string(), "c".to_string()]]);
}
