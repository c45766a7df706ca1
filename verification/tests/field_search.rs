use sweetmcp_memory::item::SemanticItem;
use sweetmcp_memory::item_types::SemanticItemType;
use sweetmcp_memory::json::JsonValue;
use sweetmcp_memory::memory::SemanticMemory;
use sweetmcp_memory::queries::SearchField;

fn memory() -> SemanticMemory {
    let mut m = SemanticMemory::new("s", "search", "fields");
    let mut a = SemanticItem::new("a", SemanticItemType::Concept, JsonValue::String("Hello hello HELLO".to_string()));
    a.category = "greeting".to_string();
    a.tags = vec!["HelloWorld".to_string(), "other".to_string(), "sayhello".to_string()];
    a.metadata = vec![
        ("hello_key".to_string(), JsonValue::Bool(true)),
        ("plain".to_string(), JsonValue::Null),
    ];
    m.add_item(a).unwrap();
    let b = SemanticItem::new("b", SemanticItemType::Fact, JsonValue::String("aaaa".to_string()));
    m.add_item(b).unwrap();
    m
}

#[test]
fn field_matches_lists_each_field_in_order() {
    let m = memory();
    let hits = m.field_matches("HeLLo");
    assert_eq!(hits.len(), 2);
    assert_eq!(
        hits[0],
        vec![
            (SearchField::Content, 0, 3),
            (SearchField::Tag, 0, 1),
            (SearchField::Tag, 2, 1),
            (SearchField::MetadataKey, 0, 1),
        ]
    );
    assert!(hits[1].is_empty());
}

#[test]
fn field_matches_counts_occurrences_without_overlap() {
    let m = memory();
    let hits = m.field_matches("aa");
    assert_eq!(hits[1], vec![(SearchField::Content, 0, 2)]);
    let concept = m.field_matches("concept");
    assert!(concept[0].is_empty());
    let greeting = m.field_matches("GREET");
    assert_eq!(greeting[0], vec![(SearchField::Category, 0, 1)]);
}

#[test]
fn field_matches_counts_every_position_for_the_empty_query() {
    let m = memory();
    let hits = m.field_matches("");
    assert_eq!(hits[1][0], (SearchField::Content, 0, 5));
    assert_eq!(hits[1][1], (SearchField::Category, 0, 1));
}

#[test]
fn field_matches_skips_a_key_given_again_later() {
    let mut m = memory();
    m.items[0].metadata.push(("hello_key".to_string(), JsonValue::Null));
    let hits = m.field_matches("hello_key");
    assert_eq!(hits[0], vec![(SearchField::MetadataKey, 2, 1)]);
}
