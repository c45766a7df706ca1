use sweetmcp_memory::confidence::ConfidenceLevel;
use sweetmcp_memory::error::MemoryError;
use sweetmcp_memory::item::SemanticItem;
use sweetmcp_memory::item_types::SemanticItemType;
use sweetmcp_memory::json::JsonValue;
use sweetmcp_memory::memory::SemanticMemory;
use sweetmcp_memory::relationship::{SemanticRelationship, SemanticRelationshipType};

fn item(id: &str) -> SemanticItem {
    SemanticItem::new(id, SemanticItemType::Concept, JsonValue::String(format!("content of {}", id)))
}

fn rel(id: &str, source: &str, target: &str) -> SemanticRelationship {
    SemanticRelationship {
        id: id.to_string(),
        source_id: source.to_string(),
        target_id: target.to_string(),
        relationship_type: SemanticRelationshipType::RelatedTo,
        confidence: ConfidenceLevel::Medium,
        created_at: 0,
        updated_at: 0,
        metadata: Vec::new(),
    }
}

fn message(e: &MemoryError) -> String {
    match e {
        MemoryError::ValidationError(m) => m.clone(),
        MemoryError::ConversionError(m) => m.clone(),
    }
}

fn memory_with(ids: &[&str]) -> SemanticMemory {
    let mut m = SemanticMemory::new("mem", "test memory", "for tests");
    for id in ids {
        m.add_item(item(id)).unwrap();
    }
    m
}

#[test]
fn new_memory_is_empty() {
    let m = SemanticMemory::new("mem", "name", "desc");
    assert!(m.is_empty());
    assert_eq!(m.size(), 0);
    assert_eq!(m.base.id, "mem");
    assert_eq!(m.base.name, "name");
}

#[test]
fn added_item_is_found() {
    let mut m = memory_with(&["a"]);
    assert!(m.add_item(item("b")).is_ok());
    let found = m.get_item("b").unwrap();
    assert_eq!(found.id, "b");
    assert!(m.contains_item("a"));
    assert!(!m.contains_item("c"));
    assert_eq!(m.items_count(), 2);
}

#[test]
fn duplicate_item_is_refused() {
    let mut m = memory_with(&["a"]);
    let err = m.add_item(item("a")).unwrap_err();
    assert!(matches!(err, MemoryError::ValidationError(_)));
    assert_eq!(message(&err), "Item with ID 'a' already exists");
    assert_eq!(m.items_count(), 1);
}

#[test]
fn remove_after_add_restores_items() {
    let mut m = memory_with(&["a", "b"]);
    m.add_relationship(rel("r1", "a", "b")).unwrap();
    m.add_item(item("c")).unwrap();
    let removed = m.remove_item("c").unwrap();
    assert_eq!(removed.id, "c");
    assert_eq!(m.items_count(), 2);
    assert_eq!(m.relationships_count(), 1);
    assert!(m.remove_item("c").is_none());
}

#[test]
fn removing_an_item_drops_its_relationships() {
    let mut m = memory_with(&["a", "b", "c"]);
    m.add_relationship(rel("r1", "a", "b")).unwrap();
    m.add_relationship(rel("r2", "b", "c")).unwrap();
    m.add_relationship(rel("r3", "a", "c")).unwrap();
    m.remove_item("b").unwrap();
    assert_eq!(m.relationships_count(), 1);
    assert_eq!(m.relationships[0].id, "r3");
}

#[test]
fn relationship_errors_name_the_problem() {
    let mut m = memory_with(&["a", "b"]);
    assert_eq!(message(&m.add_relationship(rel("r1", "x", "b")).unwrap_err()), "Source item 'x' not found");
    assert_eq!(message(&m.add_relationship(rel("r1", "a", "y")).unwrap_err()), "Target item 'y' not found");
    m.add_relationship(rel("r1", "a", "b")).unwrap();
    assert_eq!(
        message(&m.add_relationship(rel("r1", "b", "a")).unwrap_err()),
        "Relationship with ID 'r1' already exists"
    );
    assert_eq!(m.relationships_count(), 1);
}

#[test]
fn relationship_lookups() {
    let mut m = memory_with(&["a", "b", "c"]);
    m.add_relationship(rel("r1", "a", "b")).unwrap();
    m.add_relationship(rel("r2", "c", "a")).unwrap();
    assert_eq!(m.get_relationships_for_item("a").len(), 2);
    assert_eq!(m.get_outgoing_relationships("a").len(), 1);
    assert_eq!(m.get_incoming_relationships("a").len(), 1);
    let related: Vec<&str> = m.get_related_items("a").iter().map(|i| i.id.as_str()).collect();
    assert_eq!(related, vec!["b", "c"]);
    assert!(m.get_relationship("r2").is_some());
    assert!(m.remove_relationship("r2").is_some());
    assert!(m.get_relationship("r2").is_none());
}

#[test]
fn update_of_missing_item_is_an_error() {
    let mut m = memory_with(&["a"]);
    let err = m.update_item("zz", item("zz")).unwrap_err();
    assert_eq!(message(&err), "Item with ID 'zz' not found");
    let mut replacement = item("other");
    replacement.category = "changed".to_string();
    assert!(m.update_item("a", replacement).is_ok());
    let a = m.get_item("a").unwrap();
    assert_eq!(a.id, "a");
    assert_eq!(a.category, "changed");
}

#[test]
fn batch_add_skips_taken_ids() {
    let mut m = memory_with(&["a"]);
    let result = m.batch_add_items(vec![item("b"), item("a"), item("c")]).unwrap();
    assert_eq!(result.successful, vec!["b".to_string(), "c".to_string()]);
    assert_eq!(result.failed.len(), 1);
    assert_eq!(result.failed[0].0, "a");
    assert_eq!(result.total_processed, 3);
    assert_eq!(m.items_count(), 3);
}

#[test]
fn batch_remove_reports_missing_ids() {
    let mut m = memory_with(&["a", "b"]);
    let result = m.batch_remove_items(vec!["a".to_string(), "x".to_string()]);
    assert_eq!(result.removed, vec!["a".to_string()]);
    assert_eq!(result.not_found, vec!["x".to_string()]);
    assert_eq!(result.total_processed, 2);
}

#[test]
fn merge_adds_new_and_skips_known() {
    let mut m = memory_with(&["a", "b"]);
    m.add_relationship(rel("r1", "a", "b")).unwrap();
    let mut other = memory_with(&["b", "c"]);
    other.add_relationship(rel("r2", "b", "c")).unwrap();
    let result = m.merge(other).unwrap();
    assert_eq!(result.items_added, 1);
    assert_eq!(result.items_skipped, 1);
    assert_eq!(result.relationships_added, 1);
    assert_eq!(m.items_count(), 3);
}

#[test]
fn validate_reports_dangling_relationships() {
    let mut m = memory_with(&["a", "b"]);
    assert!(m.validate().is_ok());
    m.relationships.push(rel("r9", "a", "ghost"));
    let err = m.validate().unwrap_err();
    assert_eq!(message(&err), "Relationship 'r9' references non-existent target item 'ghost'");
    assert_eq!(m.compact(), 1);
    assert!(m.validate().is_ok());
}

#[test]
fn paginated_items_cover_each_item_once() {
    let m = memory_with(&["a", "b", "c", "d", "e"]);
    let page1 = m.get_paginated_items(1, 2);
    let page3 = m.get_paginated_items(3, 2);
    let page4 = m.get_paginated_items(4, 2);
    assert_eq!(page1.total_pages, 3);
    assert_eq!(page1.items.len(), 2);
    assert!(page1.has_next && !page1.has_previous);
    assert_eq!(page3.items.len(), 1);
    assert_eq!(page3.items[0].id, "e");
    assert!(!page3.has_next);
    assert!(page4.items.is_empty());
}

#[test]
fn unique_tags_come_sorted() {
    let mut m = SemanticMemory::new("mem", "n", "d");
    m.add_item(item("a").with_tag("zeta").with_tag("alpha")).unwrap();
    m.add_item(item("b").with_tag("alpha").with_tag("mid")).unwrap();
    assert_eq!(m.get_unique_tags(), vec!["alpha".to_string(), "mid".to_string(), "zeta".to_string()]);
    assert_eq!(m.get_items_with_tags(&["alpha".to_string(), "mid".to_string()]).len(), 1);
    assert_eq!(m.get_items_with_any_tags(&["zeta".to_string(), "mid".to_string()]).len(), 2);
}

#[test]
fn items_by_category_and_counts() {
    let mut m = SemanticMemory::new("mem", "n", "d");
    m.add_item(item("a")).unwrap();
    m.add_item(SemanticItem::new("b", SemanticItemType::Fact, JsonValue::String("x".to_string()))).unwrap();
    m.add_item(item("c")).unwrap();
    assert_eq!(m.get_items_by_category("concept").len(), 2);
    assert_eq!(m.get_items_by_type(&SemanticItemType::Fact).len(), 1);
    let counts = m.count_items_by_category();
    assert_eq!(counts, vec![("concept".to_string(), 2), ("fact".to_string(), 1)]);
    assert_eq!(m.find_items_by_content("content of").len(), 2);
}
