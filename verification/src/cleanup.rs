//! Cleanup strategies and what cleaning and optimising a memory reports.

use vstd::prelude::*;

verus! {

/// How hard a cleanup pass works.
#[derive(Debug, Clone, Copy, PartialEq, Eq, Structural)]
pub enum CleanupStrategy {
    /// Keeps most data.
    Conservative,
    /// Recovers as much space as it can.
    Aggressive,
    /// Driven by memory pressure.
    MemoryPressure,
    /// By age only.
    TimeBasedOnly,
    /// By confidence only.
    ConfidenceBasedOnly,
    /// By every criterion.
    Comprehensive,
}

impl CleanupStrategy {
    /// What the strategy does, as characters.
    pub open spec fn description_text(self) -> Seq<char> {
        match self {
            CleanupStrategy::Conservative => "Conservative cleanup preserving most data"@,
            CleanupStrategy::Aggressive => "Aggressive cleanup for maximum space recovery"@,
            CleanupStrategy::MemoryPressure => "Memory pressure driven cleanup"@,
            CleanupStrategy::TimeBasedOnly => "Time-based cleanup only"@,
            CleanupStrategy::ConfidenceBasedOnly => "Confidence-based cleanup only"@,
            CleanupStrategy::Comprehensive => "Comprehensive cleanup with all criteria"@,
        }
    }

    /// What the strategy does.
    pub fn description(&self) -> (r: &'static str)
        ensures
            r@ == self.description_text(),
    {
        match self {
            CleanupStrategy::Conservative => "Conservative cleanup preserving most data",
            CleanupStrategy::Aggressive => "Aggressive cleanup for maximum space recovery",
            CleanupStrategy::MemoryPressure => "Memory pressure driven cleanup",
            CleanupStrategy::TimeBasedOnly => "Time-based cleanup only",
            CleanupStrategy::ConfidenceBasedOnly => "Confidence-based cleanup only",
            CleanupStrategy::Comprehensive => "Comprehensive cleanup with all criteria",
        }
    }

    /// The strategy's priority, from conservative (1) to aggressive (6).
    pub fn priority_score(&self) -> (r: u8)
        ensures
            r == (match self {
                CleanupStrategy::Conservative => 1u8,
                CleanupStrategy::Aggressive => 6u8,
                CleanupStrategy::MemoryPressure => 5u8,
                CleanupStrategy::TimeBasedOnly => 2u8,
                CleanupStrategy::ConfidenceBasedOnly => 3u8,
                CleanupStrategy::Comprehensive => 4u8,
            }),
    {
        match self {
            CleanupStrategy::Conservative => 1,
            CleanupStrategy::Aggressive => 6,
            CleanupStrategy::MemoryPressure => 5,
            CleanupStrategy::TimeBasedOnly => 2,
            CleanupStrategy::ConfidenceBasedOnly => 3,
            CleanupStrategy::Comprehensive => 4,
        }
    }
}

/// How fragmented the storage is.
#[derive(Debug, Clone, Copy, PartialEq, Eq, Structural)]
pub enum FragmentationLevel {
    /// Under a tenth unused.
    Low,
    /// Under three tenths unused.
    Medium,
    /// Under half unused.
    High,
    /// Half or more unused.
    VeryHigh,
}

/// The outcome of a memory health check.
#[derive(Debug, Clone, Copy, PartialEq, Eq, Structural)]
pub enum HealthStatus {
    /// No issue and no warning.
    Healthy,
    /// Warnings only.
    Warning,
    /// At least one issue.
    Critical,
}

/// What optimising the memory layout changed.
#[derive(Debug, Clone, Copy)]
pub struct MemoryOptimizationResult {
    /// Reserved slots before.
    pub initial_capacity: usize,
    /// Reserved slots after.
    pub final_capacity: usize,
    /// Slots released.
    pub capacity_reduction: usize,
    /// Estimated bytes before.
    pub initial_size_bytes: usize,
    /// Estimated bytes after.
    pub final_size_bytes: usize,
    /// Estimated bytes released.
    pub size_reduction_bytes: usize,
}

/// What a memory cleanup removed.
#[derive(Debug, Clone, Copy)]
pub struct MemoryCleanupResult {
    /// Items before.
    pub initial_items: usize,
    /// Relationships before.
    pub initial_relationships: usize,
    /// Items after.
    pub final_items: usize,
    /// Relationships after.
    pub final_relationships: usize,
    /// Relationships removed for naming a missing item.
    pub orphaned_relationships_removed: usize,
    /// Items removed for empty content.
    pub empty_items_removed: usize,
}

} // verus!
