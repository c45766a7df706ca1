use sweetmcp_memory::confidence::ConfidenceLevel;
use sweetmcp_memory::error::MemoryError;
use sweetmcp_memory::item::SemanticItem;
use sweetmcp_memory::item_types::SemanticItemType;
use sweetmcp_memory::json::JsonValue;
use sweetmcp_memory::memory::SemanticMemory;
use sweetmcp_memory::relationship::{SemanticRelationship, SemanticRelationshipType};
use sweetmcp_memory::snapshots::MemorySnapshot;

fn item(id: &str) -> SemanticItem {
    SemanticItem::new(id, SemanticItemType::Concept, JsonValue::String(id.to_string()))
}

fn rel(id: &str, source: &str, target: &str) -> SemanticRelationship {
    SemanticRelationship {
        id: id.to_string(),
        source_id: source.to_string(),
        target_id: target.to_string(),
        relationship_type: SemanticRelationshipType::PartOf,
        confidence: ConfidenceLevel::Low,
        created_at: 5,
        updated_at: 5,
        metadata: Vec::new(),
    }
}

fn sample() -> SemanticMemory {
    let mut m = SemanticMemory::new("s", "snap", "snapshots");
    m.add_item(item("a")).unwrap();
    m.add_item(item("b")).unwrap();
    m.add_relationship(rel("ab", "a", "b")).unwrap();
    m
}

fn item_ids(m: &SemanticMemory) -> Vec<String> {
    m.items.iter().map(|i| i.id.clone()).collect()
}

#[test]
fn restoring_a_snapshot_brings_back_the_data() {
    let mut m = sample();
    let snap = m.create_snapshot();
    assert_eq!(snap.item_count, 2);
    assert_eq!(snap.relationship_count, 1);
    m.remove_item("a").unwrap();
    m.add_item(item("c")).unwrap();
    m.restore_from_snapshot(snap);
    assert_eq!(item_ids(&m), vec!["a".to_string(), "b".to_string()]);
    assert_eq!(m.relationships.len(), 1);
    assert!(m.validate().is_ok());
}

#[test]
fn a_fresh_snapshot_validates() {
    let m = sample();
    let snap = m.create_snapshot();
    let v = m.validate_snapshot(&snap).unwrap();
    assert!(v.is_valid);
    assert!(v.issues.is_empty());
    assert!(v.item_count_match && v.relationship_count_match);
}

#[test]
fn snapshot_problems_are_listed() {
    let m = sample();
    let snap = MemorySnapshot {
        timestamp: 0,
        item_count: 3,
        relationship_count: 1,
        items: vec![item("a"), item("a")],
        relationships: vec![rel("r", "a", "zz")],
    };
    let v = m.validate_snapshot(&snap).unwrap();
    assert!(!v.is_valid);
    assert!(!v.item_count_match);
    assert!(v.relationship_count_match);
    assert_eq!(
        v.issues,
        vec![
            "Item count mismatch: expected 3, found 2".to_string(),
            "Duplicate item ID: a".to_string(),
            "Relationship 'r' references non-existent target item 'zz'".to_string(),
        ]
    );
}

#[test]
fn incremental_snapshot_lists_changes() {
    let mut m = sample();
    let base = m.create_snapshot();
    m.add_item(item("c")).unwrap();
    m.remove_item("b").unwrap();
    m.items[0].category = "edited".to_string();
    let inc = m.create_incremental_snapshot(&base);
    assert_eq!(inc.base_snapshot_timestamp, base.timestamp);
    let added: Vec<String> = inc.added_items.iter().map(|i| i.id.clone()).collect();
    let modified: Vec<String> = inc.modified_items.iter().map(|i| i.id.clone()).collect();
    assert_eq!(added, vec!["c".to_string()]);
    assert_eq!(modified, vec!["a".to_string()]);
    assert_eq!(inc.removed_items, vec!["b".to_string()]);
    assert_eq!(inc.removed_relationships, vec!["ab".to_string()]);
    assert!(inc.added_relationships.is_empty());
}

#[test]
fn applying_changes_reproduces_the_state() {
    let mut m = sample();
    let base = m.create_snapshot();
    m.add_item(item("c")).unwrap();
    m.add_relationship(rel("bc", "b", "c")).unwrap();
    m.items[0].category = "edited".to_string();
    let inc = m.create_incremental_snapshot(&base);
    let mut replay = sample();
    replay.restore_from_snapshot(base);
    replay.apply_incremental_snapshot(inc).unwrap();
    assert_eq!(item_ids(&replay), item_ids(&m));
    assert_eq!(replay.items[0].category, "edited");
    let rel_ids: Vec<String> = replay.relationships.iter().map(|r| r.id.clone()).collect();
    assert_eq!(rel_ids, vec!["ab".to_string(), "bc".to_string()]);
}

#[test]
fn applying_changes_stops_at_a_refused_item() {
    let mut m = sample();
    let base = m.create_snapshot();
    m.add_item(item("c")).unwrap();
    let inc = m.create_incremental_snapshot(&base);
    let mut target = sample();
    target.add_item(item("c")).unwrap();
    match target.apply_incremental_snapshot(inc) {
        Err(MemoryError::ValidationError(msg)) => assert_eq!(msg, "Item with ID 'c' already exists"),
        _ => panic!("expected a validation error"),
    }
}

#[test]
fn snapshot_statistics() {
    let m = sample();
    let mut s1 = m.create_snapshot();
    let mut s2 = m.create_snapshot();
    s1.timestamp = 1_000;
    s1.item_count = 3;
    s2.timestamp = 4_000;
    s2.item_count = 4;
    let stats = m.get_snapshot_statistics(&[s1, s2]);
    assert_eq!(stats.total_snapshots, 2);
    assert_eq!(stats.average_items, 3);
    assert_eq!(stats.average_relationships, 1);
    assert_eq!(stats.oldest_snapshot, 1_000);
    assert_eq!(stats.newest_snapshot, 4_000);
    assert_eq!(stats.time_span, 3_000);
    let empty = m.get_snapshot_statistics(&[]);
    assert_eq!(empty.total_snapshots, 0);
    assert_eq!(empty.time_span, 0);
}

#[test]
fn snapshots_at_a_given_time_carry_it() {
    let mut m = SemanticMemory::new("m", "n", "d");
    m.add_item(item("a")).unwrap();
    let snap = m.create_snapshot_at(1_700_000_000_000);
    assert_eq!(snap.timestamp, 1_700_000_000_000);
    assert_eq!(snap.item_count, 1);
    m.add_item(item("b")).unwrap();
    let inc = m.create_incremental_snapshot_at(&snap, 1_700_000_000_500);
    assert_eq!(inc.timestamp, 1_700_000_000_500);
    assert_eq!(inc.base_snapshot_timestamp, 1_700_000_000_000);
    assert_eq!(inc.added_items.len(), 1);
}

#[test]
fn updating_an_item_at_a_given_time_stamps_it() {
    let mut m = SemanticMemory::new("m", "n", "d");
    m.add_item(SemanticItem::new_at("a", SemanticItemType::Concept, JsonValue::Null, 5)).unwrap();
    let replacement = SemanticItem::new_at("other", SemanticItemType::Fact, JsonValue::Null, 7);
    m.update_item_at("a", replacement, 42).unwrap();
    assert_eq!(m.items[0].id, "a");
    assert_eq!(m.items[0].created_at, 7);
    assert_eq!(m.items[0].updated_at, 42);
    m.add_relationship(rel("r", "a", "a")).unwrap();
    m.update_relationship_at("r", rel("x", "a", "a"), 99).unwrap();
    assert_eq!(m.relationships[0].id, "r");
    assert_eq!(m.relationships[0].updated_at, 99);
}
