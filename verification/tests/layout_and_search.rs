use sweetmcp_memory::confidence::ConfidenceLevel;
use sweetmcp_memory::item::SemanticItem;
use sweetmcp_memory::item_types::SemanticItemType;
use sweetmcp_memory::json::JsonValue;
use sweetmcp_memory::memory::SemanticMemory;
use sweetmcp_memory::order::{key_less, sort_stably_by_keys};
use sweetmcp_memory::relationship::{SemanticRelationship, SemanticRelationshipType};

fn text_item(id: &str, content: &str) -> SemanticItem {
    SemanticItem::new(id, SemanticItemType::Fact, JsonValue::String(content.to_string()))
}

fn rel_of(id: &str, source: &str, target: &str, kind: SemanticRelationshipType) -> SemanticRelationship {
    SemanticRelationship {
        id: id.to_string(),
        source_id: source.to_string(),
        target_id: target.to_string(),
        relationship_type: kind,
        confidence: ConfidenceLevel::Medium,
        created_at: 0,
        updated_at: 0,
        metadata: Vec::new(),
    }
}

fn item_ids(m: &SemanticMemory) -> Vec<String> {
    m.items.iter().map(|i| i.id.clone()).collect()
}

fn rel_ids(m: &SemanticMemory) -> Vec<String> {
    m.relationships.iter().map(|r| r.id.clone()).collect()
}

#[test]
fn key_order_is_dictionary_order() {
    let k = |v: &[&str]| v.iter().map(|s| s.to_string()).collect::<Vec<String>>();
    assert!(key_less(&k(&["a"]), &k(&["b"])));
    assert!(key_less(&k(&["a", "z"]), &k(&["b", "a"])));
    assert!(key_less(&k(&["a", "a"]), &k(&["a", "b"])));
    assert!(key_less(&k(&["a"]), &k(&["a", "a"])));
    assert!(!key_less(&k(&["a", "b"]), &k(&["a", "b"])));
    assert!(key_less(&k(&["ab"]), &k(&["b"])));
    assert!(!key_less(&k(&["b"]), &k(&["ab"])));
}

#[test]
fn stable_sort_keeps_equal_keys_in_order() {
    let mut v = vec![10, 20, 30, 40];
    let mut keys: Vec<Vec<String>> = vec![
        vec!["b".to_string()],
        vec!["a".to_string()],
        vec!["b".to_string()],
        vec!["a".to_string()],
    ];
    sort_stably_by_keys(&mut v, &mut keys);
    assert_eq!(v, vec![20, 40, 10, 30]);
    assert_eq!(keys[0], vec!["a".to_string()]);
    assert_eq!(keys[3], vec!["b".to_string()]);
}

#[test]
fn layout_sorts_items_by_id_and_relationships_by_ends() {
    let mut m = SemanticMemory::new("m", "n", "d");
    for id in ["c", "a", "b"] {
        m.add_item(text_item(id, "x")).unwrap();
    }
    m.add_relationship(rel_of("r1", "c", "a", SemanticRelationshipType::IsA)).unwrap();
    m.add_relationship(rel_of("r2", "a", "c", SemanticRelationshipType::IsA)).unwrap();
    m.add_relationship(rel_of("r3", "a", "b", SemanticRelationshipType::IsA)).unwrap();
    m.optimize_memory_layout();
    assert_eq!(item_ids(&m), vec!["a", "b", "c"]);
    assert_eq!(rel_ids(&m), vec!["r3", "r2", "r1"]);
}

#[test]
fn cleanup_drops_orphans_and_blank_items() {
    let mut m = SemanticMemory::new("m", "n", "d");
    m.add_item(text_item("z", "keep me")).unwrap();
    m.add_item(text_item("blank", " \t\n ")).unwrap();
    m.add_item(SemanticItem::new("obj", SemanticItemType::Concept, JsonValue::Null)).unwrap();
    m.add_item(text_item("a", "")).unwrap();
    m.add_relationship(rel_of("r1", "z", "obj", SemanticRelationshipType::IsA)).unwrap();
    m.add_relationship(rel_of("r2", "z", "blank", SemanticRelationshipType::IsA)).unwrap();
    m.relationships.push(rel_of("orphan", "z", "missing", SemanticRelationshipType::IsA));
    let r = m.cleanup_memory();
    assert_eq!(r.initial_items, 4);
    assert_eq!(r.initial_relationships, 3);
    assert_eq!(r.orphaned_relationships_removed, 1);
    assert_eq!(r.empty_items_removed, 2);
    assert_eq!(r.final_items, 2);
    assert_eq!(r.final_relationships, 2);
    assert_eq!(item_ids(&m), vec!["obj", "z"]);
    assert_eq!(rel_ids(&m), vec!["r2", "r1"]);
}

#[test]
fn sorted_and_unique_tags() {
    let mut it = text_item("t", "x");
    it.add_tags(vec!["pear".to_string(), "apple".to_string(), "pear".to_string(), "fig".to_string()]);
    assert_eq!(it.get_sorted_tags(), vec!["apple", "fig", "pear", "pear"]);
    assert_eq!(it.get_unique_tags(), vec!["apple", "fig", "pear"]);
    let before = it.updated_at;
    it.normalize_tags();
    assert_eq!(it.tags, vec!["apple", "fig", "pear"]);
    assert!(it.updated_at >= before);
}

#[test]
fn filtering_tags_with_a_predicate() {
    let mut it = text_item("t", "x");
    it.add_tags(vec!["alpha".to_string(), "beta".to_string(), "almond".to_string()]);
    let picked = it.filter_tags(|t: &String| t.starts_with("al"));
    assert_eq!(picked, vec!["alpha", "almond"]);
    assert!(it.filter_tags(|_t: &String| false).is_empty());
}

#[test]
fn sorted_metadata_keys_are_distinct() {
    let mut it = text_item("t", "x");
    it.update_metadata("zeta", JsonValue::Null);
    it.update_metadata("alpha", JsonValue::Bool(true));
    it.update_metadata("zeta", JsonValue::Bool(false));
    assert_eq!(it.get_sorted_metadata_keys(), vec!["alpha", "zeta"]);
}

#[test]
fn relationships_counted_by_kind() {
    let mut m = SemanticMemory::new("m", "n", "d");
    for id in ["a", "b", "c"] {
        m.add_item(text_item(id, "x")).unwrap();
    }
    m.add_relationship(rel_of("r1", "a", "b", SemanticRelationshipType::Causes)).unwrap();
    m.add_relationship(rel_of("r2", "b", "c", SemanticRelationshipType::Custom("likes".to_string()))).unwrap();
    m.add_relationship(rel_of("r3", "a", "c", SemanticRelationshipType::Causes)).unwrap();
    m.add_relationship(rel_of("r4", "c", "a", SemanticRelationshipType::Custom("likes".to_string()))).unwrap();
    m.add_relationship(rel_of("r5", "c", "b", SemanticRelationshipType::Custom("hates".to_string()))).unwrap();
    let counts = m.count_relationships_by_type();
    assert_eq!(counts.len(), 3);
    assert!(matches!(counts[0], (SemanticRelationshipType::Causes, 2)));
    assert!(matches!(&counts[1], (SemanticRelationshipType::Custom(n), 2) if n == "likes"));
    assert!(matches!(&counts[2], (SemanticRelationshipType::Custom(n), 1) if n == "hates"));
}

#[test]
fn fuzzy_content_search_orders_by_distance() {
    let mut m = SemanticMemory::new("m", "n", "d");
    m.add_item(text_item("far", "completely different")).unwrap();
    m.add_item(text_item("two", "Kitten")).unwrap();
    m.add_item(text_item("one", "sittin")).unwrap();
    m.add_item(SemanticItem::new("null", SemanticItemType::Fact, JsonValue::Null)).unwrap();
    m.add_item(text_item("exact", "SITTING")).unwrap();
    let hits = m.find_items_by_fuzzy_content("sitting", 3);
    let got: Vec<(String, usize)> = hits.iter().map(|(i, d)| (i.id.clone(), *d)).collect();
    assert_eq!(got, vec![("exact".to_string(), 0), ("one".to_string(), 1), ("two".to_string(), 3)]);
    assert!(m.find_items_by_fuzzy_content("sitting", 0).len() == 1);
}

#[test]
fn normalizing_tags_twice_changes_nothing() {
    let mut it = text_item("t", "x");
    it.add_tags(vec!["b".to_string(), "a".to_string(), "b".to_string(), "c".to_string()]);
    it.normalize_tags();
    let once = it.tags.clone();
    it.normalize_tags();
    assert_eq!(it.tags, once);
    assert_eq!(once, vec!["a", "b", "c"]);
}

#[test]
fn layout_keeps_every_item_and_relationship() {
    let mut m = SemanticMemory::new("m", "n", "d");
    for id in ["q", "b", "x", "a"] {
        m.add_item(text_item(id, "x")).unwrap();
    }
    m.add_relationship(rel_of("r1", "x", "a", SemanticRelationshipType::HasA)).unwrap();
    m.add_relationship(rel_of("r2", "b", "q", SemanticRelationshipType::PartOf)).unwrap();
    let mut before_items = item_ids(&m);
    let mut before_rels = rel_ids(&m);
    m.optimize_memory_layout();
    let mut after_items = item_ids(&m);
    let mut after_rels = rel_ids(&m);
    before_items.sort();
    before_rels.sort();
    after_items.sort();
    after_rels.sort();
    assert_eq!(before_items, after_items);
    assert_eq!(before_rels, after_rels);
    assert!(m.validate().is_ok());
}

#[test]
fn compacting_twice_drops_nothing_more() {
    let mut m = SemanticMemory::new("m", "n", "d");
    m.add_item(text_item("a", "x")).unwrap();
    m.add_item(text_item("b", "x")).unwrap();
    m.add_relationship(rel_of("r1", "a", "b", SemanticRelationshipType::IsA)).unwrap();
    m.relationships.push(rel_of("r2", "a", "gone", SemanticRelationshipType::IsA));
    m.relationships.push(rel_of("r3", "gone", "b", SemanticRelationshipType::IsA));
    assert_eq!(m.compact(), 2);
    assert_eq!(m.compact(), 0);
    assert_eq!(rel_ids(&m), vec!["r1"]);
}
