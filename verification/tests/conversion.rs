use sweetmcp_memory::confidence::ConfidenceLevel;
use sweetmcp_memory::error::MemoryError;
use sweetmcp_memory::item::{SemanticItem, SemanticItemConverter};
use sweetmcp_memory::item_types::SemanticItemType;
use sweetmcp_memory::json::JsonValue;

fn s(t: &str) -> JsonValue {
    JsonValue::String(t.to_string())
}

fn obj(entries: Vec<(&str, JsonValue)>) -> JsonValue {
    JsonValue::Object(entries.into_iter().map(|(k, v)| (k.to_string(), v)).collect())
}

fn conversion_message(r: Result<SemanticItem, MemoryError>) -> String {
    match r {
        Err(MemoryError::ConversionError(m)) => m,
        _ => panic!("expected a conversion error"),
    }
}

fn keys(v: &JsonValue) -> Vec<String> {
    match v {
        JsonValue::Object(o) => o.iter().map(|(k, _)| k.clone()).collect(),
        _ => Vec::new(),
    }
}

#[test]
fn item_to_json_object() {
    let mut item = SemanticItem::new("i1", SemanticItemType::Rule, s("if a then b"));
    item.created_at = 0;
    item.updated_at = 1_500;
    item.tags = vec!["x".to_string()];
    item.update_metadata("zeta", s("last"));
    item.update_metadata("alpha", s("first"));
    item.updated_at = 1_500;
    let v = SemanticItemConverter::to_value(&item).unwrap();
    assert_eq!(
        keys(&v),
        vec!["category", "confidence", "content", "created_at", "id", "item_type", "metadata", "tags", "updated_at"]
    );
    assert!(matches!(v.get("created_at"), Some(JsonValue::String(t)) if t == "1970-01-01T00:00:00+00:00"));
    assert!(matches!(v.get("updated_at"), Some(JsonValue::String(t)) if t == "1970-01-01T00:00:01.500+00:00"));
    assert!(matches!(v.get("item_type"), Some(JsonValue::String(t)) if t == "rule"));
    assert!(matches!(v.get("confidence"), Some(JsonValue::String(t)) if t == "Medium"));
    assert_eq!(keys(v.get("metadata").unwrap()), vec!["alpha", "zeta"]);
}

#[test]
fn json_object_to_item() {
    let v = obj(vec![
        ("id", s("k1")),
        ("item_type", s("Fact")),
        ("content", s("the sky is blue")),
        ("tags", JsonValue::Array(vec![s("a"), JsonValue::Null, s("b")])),
        ("confidence", s("High")),
        ("created_at", s("2024-01-02T03:04:05Z")),
        ("updated_at", s("2024-01-02T03:04:06.250+00:00")),
        ("metadata", obj(vec![("source", s("web"))])),
    ]);
    let item = SemanticItemConverter::from_value(&v).unwrap();
    assert_eq!(item.id, "k1");
    assert_eq!(item.item_type, SemanticItemType::Fact);
    assert_eq!(item.category, "fact");
    assert_eq!(item.tags, vec!["a".to_string(), "b".to_string()]);
    assert_eq!(item.confidence, ConfidenceLevel::High);
    assert_eq!(item.created_at, 1_704_164_645_000);
    assert_eq!(item.updated_at, 1_704_164_646_250);
    assert!(item.get_metadata("source").is_some());
}

#[test]
fn defaults_for_missing_fields() {
    let v = obj(vec![("id", s("k")), ("item_type", s("concept")), ("confidence", s("Certain"))]);
    let item = SemanticItemConverter::from_value(&v).unwrap();
    assert!(matches!(item.content, JsonValue::Null));
    assert!(item.tags.is_empty());
    assert_eq!(item.confidence, ConfidenceLevel::Medium);
    assert_eq!(item.metadata_count(), 0);
}

#[test]
fn conversion_errors() {
    assert_eq!(conversion_message(SemanticItemConverter::from_value(&s("x"))), "Invalid semantic item value");
    assert_eq!(
        conversion_message(SemanticItemConverter::from_value(&obj(vec![("item_type", s("fact"))]))),
        "Missing id in semantic item"
    );
    assert_eq!(
        conversion_message(SemanticItemConverter::from_value(&obj(vec![("id", s("a"))]))),
        "Missing item_type in semantic item"
    );
    assert_eq!(
        conversion_message(SemanticItemConverter::from_value(&obj(vec![("id", s("a")), ("item_type", s("gizmo"))]))),
        "Invalid semantic item type: gizmo"
    );
    assert_eq!(
        conversion_message(SemanticItemConverter::from_value(&obj(vec![
            ("id", s("a")),
            ("item_type", s("fact")),
            ("created_at", s("yesterday")),
        ]))),
        "Invalid created_at format"
    );
}

#[test]
fn round_trip_keeps_the_data() {
    let mut item = SemanticItem::new("rt", SemanticItemType::Category, s("animals"));
    item.tags = vec!["zoo".to_string()];
    item.update_metadata("count", JsonValue::Number("12".to_string()));
    let back = SemanticItemConverter::from_value(&SemanticItemConverter::to_value(&item).unwrap()).unwrap();
    assert_eq!(back.id, item.id);
    assert_eq!(back.item_type, item.item_type);
    assert_eq!(back.category, item.category);
    assert_eq!(back.tags, item.tags);
    assert_eq!(back.confidence, item.confidence);
    assert_eq!(back.created_at, item.created_at);
    assert_eq!(back.updated_at, item.updated_at);
    assert!(matches!(back.get_metadata("count"), Some(JsonValue::Number(n)) if n == "12"));
}
