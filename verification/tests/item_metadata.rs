use sweetmcp_memory::item::SemanticItem;
use sweetmcp_memory::item_types::SemanticItemType;
use sweetmcp_memory::json::JsonValue;

fn item() -> SemanticItem {
    SemanticItem::new("i1", SemanticItemType::Fact, JsonValue::String("water is wet".to_string()))
}

fn text(s: &str) -> JsonValue {
    JsonValue::String(s.to_string())
}

fn num(s: &str) -> JsonValue {
    JsonValue::Number(s.to_string())
}

#[test]
fn metadata_read_after_write() {
    let mut it = item();
    it.update_metadata("color", text("blue"));
    it.update_metadata("size", num("3"));
    it.update_metadata("color", text("red"));
    assert!(matches!(it.get_metadata("color"), Some(JsonValue::String(s)) if s == "red"));
    assert_eq!(it.metadata_count(), 2);
    let removed = it.remove_metadata("color");
    assert!(matches!(removed, Some(JsonValue::String(s)) if s == "red"));
    assert!(it.get_metadata("color").is_none());
    assert!(it.remove_metadata("color").is_none());
}

#[test]
fn metadata_key_rules() {
    assert!(SemanticItem::is_valid_metadata_key("author"));
    assert!(!SemanticItem::is_valid_metadata_key(""));
    assert!(!SemanticItem::is_valid_metadata_key(" padded"));
    assert!(!SemanticItem::is_valid_metadata_key("padded "));
    assert!(!SemanticItem::is_valid_metadata_key("line\nbreak"));
    assert!(!SemanticItem::is_valid_metadata_key(&"k".repeat(101)));
    assert!(SemanticItem::is_valid_metadata_key(&"k".repeat(100)));
    assert!(!SemanticItem::is_valid_metadata_key(&"é".repeat(51)));
}

#[test]
fn value_sizes_and_well_formedness() {
    assert!(SemanticItem::is_reasonable_metadata_value_size(&text(&"x".repeat(10000))));
    assert!(!SemanticItem::is_reasonable_metadata_value_size(&text(&"x".repeat(10001))));
    assert!(SemanticItem::is_reasonable_metadata_value_size(&JsonValue::Null));
    let mut it = item();
    it.update_metadata("good", text("v"));
    assert!(it.is_metadata_well_formed());
    assert_eq!(it.valid_metadata_entry_count(), 1);
    it.update_metadata("bad key ", text("v"));
    assert!(!it.is_metadata_well_formed());
    assert_eq!(it.valid_metadata_entry_count(), 1);
}

#[test]
fn sanitizing_keys() {
    assert_eq!(SemanticItem::sanitize_metadata_key("  a\tb\nc  "), "a_b_c");
    assert_eq!(SemanticItem::sanitize_metadata_key("plain"), "plain");
    assert_eq!(SemanticItem::sanitize_metadata_key(&"z".repeat(150)).len(), 100);
    assert_eq!(SemanticItem::sanitize_metadata_key("\u{3000}wide\u{3000}"), "wide");
}

#[test]
fn integrity_issues_are_reported() {
    let mut it = item();
    it.update_metadata("", text("empty key"));
    it.update_metadata("tab\tkey", text("v"));
    it.update_metadata("big", text(&"x".repeat(10001)));
    let issues = it.validate_metadata_integrity();
    assert_eq!(
        issues,
        vec![
            "Empty metadata key found".to_string(),
            "Key contains whitespace characters: tab\tkey".to_string(),
            "Very large string value for key 'big': 10001 chars".to_string(),
        ]
    );
    let mut long = item();
    long.update_metadata(&"k".repeat(120), JsonValue::Null);
    assert_eq!(long.validate_metadata_integrity(), vec![format!("Very long key found: {} (120 chars)", "k".repeat(120))]);
}

#[test]
fn duplicate_keys_by_case() {
    let mut it = item();
    it.update_metadata("Name", text("a"));
    it.update_metadata("other", text("b"));
    it.update_metadata("NAME", text("c"));
    it.update_metadata("name", text("d"));
    let groups = it.find_duplicate_metadata_keys();
    assert_eq!(groups, vec![vec!["Name".to_string(), "NAME".to_string(), "name".to_string()]]);
}

#[test]
fn statistics_by_value_kind() {
    let mut it = item();
    it.update_metadata("s", text("x"));
    it.update_metadata("n", num("1"));
    it.update_metadata("b", JsonValue::Bool(true));
    it.update_metadata("a", JsonValue::Array(vec![num("1"), num("2")]));
    it.update_metadata("z", JsonValue::Null);
    assert_eq!(it.get_metadata_statistics(), (5, 1, 1, 1, 1, 0, 1));
    assert_eq!(it.efficient_metadata_entry_count(), 4);
}

#[test]
fn largest_values_first() {
    let mut it = item();
    it.update_metadata("short", text("ab"));
    it.update_metadata("flag", JsonValue::Bool(false));
    it.update_metadata("long", text("abcdef"));
    it.update_metadata("list", JsonValue::Array(vec![JsonValue::Null, JsonValue::Null]));
    let sizes: Vec<(String, usize)> = it.get_metadata_value_sizes().iter().map(|(k, n)| (k.to_string(), *n)).collect();
    assert_eq!(sizes, vec![("short".to_string(), 2), ("long".to_string(), 6), ("list".to_string(), 2)]);
    let largest: Vec<(String, usize)> =
        it.find_largest_metadata_values(2).iter().map(|(k, n)| (k.to_string(), *n)).collect();
    assert_eq!(largest, vec![("long".to_string(), 6), ("short".to_string(), 2)]);
}

#[test]
fn key_naming_patterns() {
    let mut it = item();
    it.update_metadata("user_name", JsonValue::Null);
    it.update_metadata("app.version", JsonValue::Null);
    it.update_metadata("camelCase", JsonValue::Null);
    it.update_metadata("item2", JsonValue::Null);
    let patterns = it.analyze_metadata_key_patterns();
    assert_eq!(
        patterns,
        vec![
            ("underscore_separated".to_string(), 1),
            ("dot_separated".to_string(), 1),
            ("camel_case".to_string(), 1),
            ("numeric_suffix".to_string(), 1),
        ]
    );
    let mut prefixed = item();
    prefixed.update_metadata("db_host", JsonValue::Null);
    assert_eq!(
        prefixed.analyze_metadata_key_patterns(),
        vec![("underscore_separated".to_string(), 1), ("prefixed".to_string(), 1)]
    );
}

#[test]
fn comparing_keys_of_two_items() {
    let mut a = item();
    a.update_metadata("x", JsonValue::Null);
    a.update_metadata("y", JsonValue::Null);
    let mut b = item();
    b.update_metadata("y", JsonValue::Null);
    b.update_metadata("z", JsonValue::Null);
    let (common, only_a, only_b) = a.compare_metadata_keys(&b);
    assert_eq!(common, vec!["y".to_string()]);
    assert_eq!(only_a, vec!["x".to_string()]);
    assert_eq!(only_b, vec!["z".to_string()]);
}

#[test]
fn transforming_values() {
    let mut it = item();
    it.update_metadata("a", text("xyz"));
    it.update_metadata("b", JsonValue::Null);
    let kinds = it.transform_metadata_values(|v| v.is_null());
    assert_eq!(kinds, vec![("a".to_string(), false), ("b".to_string(), true)]);
}

#[test]
fn batch_operations_stop_at_clear() {
    let mut it = item();
    it.update_metadata("keep", text("1"));
    let applied = it.batch_metadata_operations(vec![
        ("set", "a", Some(num("1"))),
        ("set", "b", None),
        ("remove", "missing", None),
        ("remove", "keep", None),
        ("bogus", "a", None),
    ]);
    assert_eq!(applied, 2);
    assert!(it.get_metadata("a").is_some());
    assert!(it.get_metadata("keep").is_none());
    let applied = it.batch_metadata_operations(vec![("clear", "", None), ("set", "late", Some(num("2")))]);
    assert_eq!(applied, 1);
    assert_eq!(it.metadata_count(), 0);
}

#[test]
fn conditional_update_checks_the_current_value() {
    let mut it = item();
    assert!(it.conditional_update_metadata("k", |cur| cur.is_none(), num("1")));
    assert!(!it.conditional_update_metadata("k", |cur| cur.is_none(), num("2")));
    assert!(matches!(it.get_metadata("k"), Some(JsonValue::Number(n)) if n == "1"));
}

#[test]
fn archiving_moves_keys_under_a_prefix() {
    let mut it = item();
    it.update_metadata("old", text("v"));
    it.update_metadata("older", text("w"));
    assert_eq!(it.archive_metadata(&["old", "absent"], None), 1);
    assert!(it.get_metadata("old").is_none());
    assert!(it.get_metadata("archived_old").is_some());
    assert_eq!(it.archive_metadata(&["older"], Some("bak.")), 1);
    assert!(it.get_metadata("bak.older").is_some());
}

#[test]
fn levenshtein_examples() {
    assert_eq!(SemanticItem::levenshtein_distance("kitten", "sitting"), 3);
    assert_eq!(SemanticItem::levenshtein_distance("", "abc"), 3);
    assert_eq!(SemanticItem::levenshtein_distance("héé", ""), 5);
    assert_eq!(SemanticItem::levenshtein_distance("same", "same"), 0);
    assert_eq!(SemanticItem::levenshtein_distance("ab", "ba"), SemanticItem::levenshtein_distance("ba", "ab"));
}

#[test]
fn similar_keys_and_typos() {
    assert!(SemanticItem::are_keys_similar("color", "colour"));
    assert!(SemanticItem::are_keys_similar("colour", "color"));
    assert!(!SemanticItem::are_keys_similar("color", "color"));
    assert!(!SemanticItem::are_keys_similar("a", "abcd"));
    assert!(!SemanticItem::are_keys_similar("abc", "xyz"));
    let mut it = item();
    it.update_metadata("color", JsonValue::Null);
    it.update_metadata("size", JsonValue::Null);
    it.update_metadata("colour", JsonValue::Null);
    assert_eq!(it.find_potential_typos(), vec!["'color' and 'colour' are similar".to_string()]);
}

#[test]
fn jaro_matching_counts() {
    assert_eq!(SemanticItem::jaro_match_counts("MARTHA", "MARHTA"), (6, 2));
    assert_eq!(SemanticItem::jaro_match_counts("DIXON", "DICKSONX"), (4, 0));
    assert_eq!(SemanticItem::jaro_match_counts("abc", "xyz"), (0, 0));
    assert_eq!(SemanticItem::jaro_match_counts("", "abc"), (0, 0));
    assert_eq!(SemanticItem::jaro_winkler_prefix("MARTHA", "MARHTA"), 3);
    assert_eq!(SemanticItem::jaro_winkler_prefix("prefix_one", "prefix_two"), 4);
    assert_eq!(SemanticItem::jaro_winkler_prefix("", "x"), 0);
}

#[test]
fn cleanup_moves_bad_keys_and_drops_nulls() {
    let mut it = item();
    it.update_metadata(" padded ", text("p"));
    it.update_metadata("tab\there", text("t"));
    it.update_metadata("gone", JsonValue::Null);
    it.update_metadata("kept", num("1"));
    let fixes = it.cleanup_metadata();
    assert_eq!(fixes, 3);
    assert!(matches!(it.get_metadata("padded"), Some(JsonValue::String(s)) if s == "p"));
    assert!(matches!(it.get_metadata("tab_here"), Some(JsonValue::String(s)) if s == "t"));
    assert!(it.get_metadata(" padded ").is_none());
    assert!(it.get_metadata("gone").is_none());
    assert!(it.get_metadata("kept").is_some());
    assert_eq!(it.metadata_count(), 3);
    assert!(it.is_metadata_well_formed());
    assert_eq!(it.cleanup_metadata(), 0);
}

#[test]
fn cleanup_moved_key_holding_null_is_dropped_too() {
    let mut it = item();
    it.update_metadata("x ", JsonValue::Null);
    assert_eq!(it.cleanup_metadata(), 2);
    assert_eq!(it.metadata_count(), 0);
}

#[test]
fn cleanup_leaves_no_null_values() {
    let mut it = item();
    it.update_metadata("a", JsonValue::Null);
    it.update_metadata(" b", JsonValue::Null);
    it.update_metadata("c", num("2"));
    it.cleanup_metadata();
    for (_, v) in it.metadata.iter() {
        assert!(!matches!(v, JsonValue::Null));
    }
    assert_eq!(it.metadata_count(), 1);
}

#[test]
fn stamping_at_a_given_time_sets_the_update_time() {
    let mut it = SemanticItem::new_at("s", SemanticItemType::Fact, JsonValue::Null, 10);
    assert_eq!((it.created_at, it.updated_at), (10, 10));
    it.update_metadata_at("k", text("v"), 20);
    assert_eq!((it.created_at, it.updated_at), (10, 20));
    assert!(it.remove_metadata_at("missing", 30).is_none());
    assert_eq!(it.updated_at, 20);
    assert!(it.remove_metadata_at("k", 31).is_some());
    assert_eq!(it.updated_at, 31);
    it.add_tags_at(vec!["t".to_string()], 40);
    assert_eq!(it.updated_at, 40);
    assert!(!it.remove_tag_at("absent", 41));
    assert_eq!(it.updated_at, 40);
    assert!(it.toggle_tag_at("t", 50) == false);
    assert_eq!(it.updated_at, 50);
    it.set_category_at("c", 60);
    assert_eq!(it.updated_at, 60);
    it.normalize_tags_at(70);
    assert_eq!(it.updated_at, 70);
}
