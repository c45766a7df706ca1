use sweetmcp_memory::atomic_stats::AtomicMemoryStatistics;
use sweetmcp_memory::confidence::ConfidenceLevel;
use sweetmcp_memory::configuration::{CleanupConfig, MemoryManagementConfig, OptimizationStrategy};
use sweetmcp_memory::error::MemoryError;
use sweetmcp_memory::health_types::IssueCategory;
use sweetmcp_memory::item_types::{SemanticItemType, SemanticItemTypeClassifier};
use sweetmcp_memory::json::JsonValue;
use sweetmcp_memory::usage_stats::MemoryStatistics as UsageRecord;

#[test]
fn confidence_names_round_trip() {
    for c in ConfidenceLevel::all() {
        assert_eq!(ConfidenceLevel::from_str(c.name()), Some(c));
    }
    assert_eq!(ConfidenceLevel::from_str("Unknown"), None);
    assert_eq!(ConfidenceLevel::from_str("low"), None);
}

#[test]
fn confidence_steps_undo_each_other() {
    assert_eq!(ConfidenceLevel::Low.next_higher(), Some(ConfidenceLevel::Medium));
    assert_eq!(ConfidenceLevel::Medium.next_lower(), Some(ConfidenceLevel::Low));
    assert_eq!(ConfidenceLevel::VeryHigh.next_higher(), None);
    assert_eq!(ConfidenceLevel::VeryLow.next_lower(), None);
    for c in ConfidenceLevel::all() {
        if let Some(up) = c.next_higher() {
            assert_eq!(up.next_lower(), Some(c));
        }
    }
    assert!(ConfidenceLevel::High.meets_threshold(ConfidenceLevel::Medium));
    assert!(!ConfidenceLevel::Low.meets_threshold(ConfidenceLevel::Medium));
}

#[test]
fn item_type_names_round_trip() {
    for t in SemanticItemType::all() {
        assert_eq!(SemanticItemType::from_string(t.as_str()).unwrap(), t);
    }
    assert_eq!(SemanticItemType::from_string("FACT").unwrap(), SemanticItemType::Fact);
    match SemanticItemType::from_string("widget") {
        Err(MemoryError::ConversionError(m)) => assert_eq!(m, "Invalid semantic item type: widget"),
        _ => panic!("expected a conversion error"),
    }
}

#[test]
fn text_classification() {
    assert_eq!(SemanticItemTypeClassifier::classify_text("If it rains then stay inside"), SemanticItemType::Rule);
    assert_eq!(SemanticItemTypeClassifier::classify_text("The sky is blue"), SemanticItemType::Fact);
    assert_eq!(SemanticItemTypeClassifier::classify_text("Mammal category"), SemanticItemType::Category);
    assert_eq!(SemanticItemTypeClassifier::classify_text("justice"), SemanticItemType::Concept);
    let obj = JsonValue::Object(vec![
        ("condition".to_string(), JsonValue::Bool(true)),
        ("action".to_string(), JsonValue::Null),
    ]);
    assert_eq!(SemanticItemTypeClassifier::classify_content(&obj), SemanticItemType::Rule);
}

#[test]
fn issue_categories_ignore_case() {
    assert_eq!(IssueCategory::from_component("MEMORY pool"), IssueCategory::Memory);
    assert_eq!(IssueCategory::from_component("Cache layer"), IssueCategory::Performance);
    assert_eq!(IssueCategory::from_component("Network link"), IssueCategory::Network);
    assert_eq!(IssueCategory::from_component("something"), IssueCategory::Unknown);
}

#[test]
fn cleanup_configurations() {
    let c = CleanupConfig::new();
    assert!(c.is_valid());
    assert_eq!(c.estimated_cleanup_frequency(), 168);
    assert_eq!(CleanupConfig::aggressive().estimated_cleanup_frequency(), 24);
    assert!(CleanupConfig::conservative().is_valid());
    let mut broken = CleanupConfig::new();
    broken.batch_size = 0;
    assert!(!broken.is_valid());
}

#[test]
fn management_configuration_limits() {
    let config = MemoryManagementConfig::memory_constrained(1);
    assert!(config.is_within_memory_limits(1024 * 1024));
    assert!(!config.is_within_memory_limits(1024 * 1024 + 1));
    assert!(MemoryManagementConfig::new().validate().is_ok());
    assert!(MemoryManagementConfig::high_performance().is_within_memory_limits(usize::MAX));
    assert_eq!(OptimizationStrategy::Balanced.name(), "Balanced");
}

#[test]
fn statistics_counters() {
    let mut s = AtomicMemoryStatistics::new();
    assert_eq!(s.increment_items(5), 5);
    assert_eq!(s.decrement_items(5), 0);
    assert_eq!(s.get_item_count(), 0);
    assert_eq!(s.increment_relationships(3), 3);
    assert_eq!(s.decrement_relationships(10), 0);
    assert_eq!(s.add_memory_usage(4096), 4096);
    assert_eq!(s.get_total_entity_count(), 0usize.wrapping_sub(7));
    s.reset();
    assert_eq!(s.get_relationship_count(), 0);
    assert_eq!(s.get_memory_usage(), 0);
    assert_eq!(s.get_last_cleanup_timestamp(), None);
}

#[test]
fn cleanup_schedule() {
    let mut s = AtomicMemoryStatistics::new();
    assert!(s.needs_cleanup_at(1, 10_000));
    s.record_cleanup_at(10_000);
    assert_eq!(s.get_cleanup_count(), 1);
    assert_eq!(s.get_last_cleanup_timestamp(), Some(10_000));
    assert!(!s.needs_cleanup_at(1, 10_000 + 3600));
    assert!(s.needs_cleanup_at(1, 10_000 + 2 * 3600));
}

#[test]
fn optimization_needed_when_entries_are_large() {
    let mut s = AtomicMemoryStatistics::new();
    assert!(!s.needs_optimization());
    s.update_item_count(2);
    s.update_memory_usage(2 * 2047);
    assert!(!s.needs_optimization());
    s.update_memory_usage(2 * 2047 + 1);
    assert!(s.needs_optimization());
}

#[test]
fn confidence_distribution_and_dominant_level() {
    let levels = vec![
        ConfidenceLevel::High,
        ConfidenceLevel::Low,
        ConfidenceLevel::High,
        ConfidenceLevel::VeryHigh,
        ConfidenceLevel::Low,
    ];
    let d = ConfidenceLevel::distribution(&levels);
    assert_eq!(d, [0, 2, 0, 2, 1]);
    assert_eq!(ConfidenceLevel::dominant_in(&d), ConfidenceLevel::High);
    assert_eq!(ConfidenceLevel::dominant_in(&[0, 0, 0, 0, 0]), ConfidenceLevel::VeryHigh);
    assert_eq!(ConfidenceLevel::dominant_in(&[5, 1, 0, 0, 0]), ConfidenceLevel::VeryLow);
}

#[test]
fn usage_record_counts_and_cleanup_due() {
    let mut s = UsageRecord::new();
    assert!(s.needs_cleanup_at(1, 1000));
    s.update(3, 2, 4096);
    assert_eq!(s.total_entity_count(), 5);
    s.record_cleanup_at(10_000);
    assert_eq!(s.cleanup_count, 1);
    assert!(!s.needs_cleanup_at(1, 10_000 + 3600));
    assert!(s.needs_cleanup_at(1, 10_000 + 3601));
    assert!(s.needs_cleanup_at(1, 9_999));
    assert!(s.is_valid());
    s.add_access_count(4);
    assert!(!s.is_valid());
    s.add_unique_pattern_count(2);
    assert!(s.is_valid());
    assert_eq!(s.total_access_count, 4);
    let mut t = UsageRecord::new();
    t.update(0, 1, 0);
    assert!(!t.is_valid());
}

#[test]
fn item_type_names_ignore_case() {
    for t in SemanticItemType::all() {
        assert_eq!(SemanticItemType::from_string(&t.as_str().to_uppercase()).unwrap(), t);
    }
    assert_eq!(SemanticItemType::from_string("CaTeGoRy").unwrap(), SemanticItemType::Category);
    assert!(SemanticItemType::from_string("").is_err());
    assert!(SemanticItemType::from_string("facts").is_err());
}

#[test]
fn subtracting_memory_undoes_adding() {
    let mut s = AtomicMemoryStatistics::new();
    s.update_memory_usage(1000);
    assert_eq!(s.add_memory_usage(24), 1024);
    assert_eq!(s.subtract_memory_usage(24), 1000);
    assert_eq!(s.get_memory_usage(), 1000);
    assert_eq!(s.subtract_memory_usage(2000), 0);
}

#[test]
fn recorded_cleanup_time_is_the_clock() {
    let mut s = AtomicMemoryStatistics::new();
    s.record_cleanup();
    let now = std::time::SystemTime::now()
        .duration_since(std::time::UNIX_EPOCH)
        .map(|d| d.as_secs())
        .unwrap_or(0);
    let t = s.get_last_cleanup_timestamp().unwrap();
    assert!(t <= now && now - t < 60);
    assert!(!s.needs_cleanup(1));
}
