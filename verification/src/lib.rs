//! Semantic memory: items, relationships and the analyses built on them.

pub mod text;
pub mod confidence;
pub mod json;
pub mod error;
pub mod relationship;
pub mod item_types;
pub mod meta;
pub mod clock;
pub mod item;
pub mod seqs;
pub mod memory;
pub mod batch;
pub mod atomic_stats;
pub mod graph;
pub mod components;
pub mod reach;
pub mod metrics;
pub mod scc;
pub mod health_types;
pub mod configuration;
pub mod recommendations;
pub mod operations;
pub mod cleanup;
pub mod queries;
pub mod order;
pub mod integrity;
pub mod similarity;
pub mod meta_quality;
pub mod meta_stats;
pub mod meta_edit;
pub mod laws;
pub mod snapshots;
pub mod rel_index;
pub mod jaro;
pub mod conversion;
pub mod layout;
pub mod item_views;
pub mod search;
pub mod usage_stats;
pub mod field_search;
pub mod result_laws;
