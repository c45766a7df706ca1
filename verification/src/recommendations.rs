//! Kinds of optimisation recommendation, with their complexity, risk and urgency.

use vstd::prelude::*;

verus! {

/// The kind of optimisation a recommendation proposes.
#[derive(Debug, Clone, Copy, PartialEq, Eq, Structural)]
pub enum RecommendationType {
    /// Memory defragmentation.
    Defragmentation,
    /// Data compression.
    Compression,
    /// Cache tuning.
    CacheOptimization,
    /// Index improvements.
    IndexOptimization,
    /// Memory reallocation.
    MemoryReallocation,
    /// Access pattern tuning.
    AccessPatternOptimization,
    /// Relationship pruning.
    RelationshipPruning,
    /// Data structure changes.
    DataStructureOptimization,
    /// Garbage collection tuning.
    GarbageCollectionOptimization,
    /// Memory pool tuning.
    MemoryPoolOptimization,
}

impl RecommendationType {
    /// The area the recommendation improves, as characters.
    pub open spec fn category_text(self) -> Seq<char> {
        match self {
            RecommendationType::Defragmentation => "Memory Layout"@,
            RecommendationType::Compression => "Storage Efficiency"@,
            RecommendationType::CacheOptimization => "Access Performance"@,
            RecommendationType::IndexOptimization => "Query Performance"@,
            RecommendationType::MemoryReallocation => "Memory Management"@,
            RecommendationType::AccessPatternOptimization => "Usage Patterns"@,
            RecommendationType::RelationshipPruning => "Data Cleanup"@,
            RecommendationType::DataStructureOptimization => "Algorithm Efficiency"@,
            RecommendationType::GarbageCollectionOptimization => "Memory Management"@,
            RecommendationType::MemoryPoolOptimization => "Memory Management"@,
        }
    }

    /// The area the recommendation improves.
    pub fn category(&self) -> (r: &'static str)
        ensures
            r@ == self.category_text(),
    {
        match self {
            RecommendationType::Defragmentation => "Memory Layout",
            RecommendationType::Compression => "Storage Efficiency",
            RecommendationType::CacheOptimization => "Access Performance",
            RecommendationType::IndexOptimization => "Query Performance",
            RecommendationType::MemoryReallocation => "Memory Management",
            RecommendationType::AccessPatternOptimization => "Usage Patterns",
            RecommendationType::RelationshipPruning => "Data Cleanup",
            RecommendationType::DataStructureOptimization => "Algorithm Efficiency",
            RecommendationType::GarbageCollectionOptimization => "Memory Management",
            RecommendationType::MemoryPoolOptimization => "Memory Management",
        }
    }

    /// How risky the recommendation is.
    pub fn risk_level(&self) -> (r: RiskLevel)
        ensures
            r == (match self {
                RecommendationType::Defragmentation => RiskLevel::Low,
                RecommendationType::Compression => RiskLevel::Medium,
                RecommendationType::CacheOptimization => RiskLevel::Low,
                RecommendationType::IndexOptimization => RiskLevel::Medium,
                RecommendationType::MemoryReallocation => RiskLevel::High,
                RecommendationType::AccessPatternOptimization => RiskLevel::Medium,
                RecommendationType::RelationshipPruning => RiskLevel::Medium,
                RecommendationType::DataStructureOptimization => RiskLevel::High,
                RecommendationType::GarbageCollectionOptimization => RiskLevel::Medium,
                RecommendationType::MemoryPoolOptimization => RiskLevel::High,
            }),
    {
        match self {
            RecommendationType::Defragmentation => RiskLevel::Low,
            RecommendationType::Compression => RiskLevel::Medium,
            RecommendationType::CacheOptimization => RiskLevel::Low,
            RecommendationType::IndexOptimization => RiskLevel::Medium,
            RecommendationType::MemoryReallocation => RiskLevel::High,
            RecommendationType::AccessPatternOptimization => RiskLevel::Medium,
            RecommendationType::RelationshipPruning => RiskLevel::Medium,
            RecommendationType::DataStructureOptimization => RiskLevel::High,
            RecommendationType::GarbageCollectionOptimization => RiskLevel::Medium,
            RecommendationType::MemoryPoolOptimization => RiskLevel::High,
        }
    }
}

/// How hard a recommendation is to carry out.
#[derive(Debug, Clone, Copy, PartialEq, Eq, Structural)]
pub enum ComplexityLevel {
    /// Simple.
    Low,
    /// Moderate.
    Medium,
    /// Complex.
    High,
    /// Very complex.
    VeryHigh,
}

impl ComplexityLevel {
    /// What carrying it out takes, as characters.
    pub open spec fn description_text(self) -> Seq<char> {
        match self {
            ComplexityLevel::Low => "Simple implementation with minimal risk"@,
            ComplexityLevel::Medium => "Moderate implementation requiring careful planning"@,
            ComplexityLevel::High => "Complex implementation requiring extensive testing"@,
            ComplexityLevel::VeryHigh => "Very complex implementation requiring phased approach"@,
        }
    }

    /// What carrying it out takes.
    pub fn description(&self) -> (r: &'static str)
        ensures
            r@ == self.description_text(),
    {
        match self {
            ComplexityLevel::Low => "Simple implementation with minimal risk",
            ComplexityLevel::Medium => "Moderate implementation requiring careful planning",
            ComplexityLevel::High => "Complex implementation requiring extensive testing",
            ComplexityLevel::VeryHigh => "Very complex implementation requiring phased approach",
        }
    }
}

/// How much a recommendation could harm.
#[derive(Debug, Clone, Copy, PartialEq, Eq, Structural)]
pub enum RiskLevel {
    /// Minimal risk.
    Low,
    /// Some risk.
    Medium,
    /// Significant risk.
    High,
    /// Critical risk.
    Critical,
}

impl RiskLevel {
    /// What the risk means, as characters.
    pub open spec fn description_text(self) -> Seq<char> {
        match self {
            RiskLevel::Low => "Minimal risk of negative impact"@,
            RiskLevel::Medium => "Some risk requiring monitoring"@,
            RiskLevel::High => "Significant risk requiring careful execution"@,
            RiskLevel::Critical => "Critical risk requiring extensive precautions"@,
        }
    }

    /// What the risk means.
    pub fn description(&self) -> (r: &'static str)
        ensures
            r@ == self.description_text(),
    {
        match self {
            RiskLevel::Low => "Minimal risk of negative impact",
            RiskLevel::Medium => "Some risk requiring monitoring",
            RiskLevel::High => "Significant risk requiring careful execution",
            RiskLevel::Critical => "Critical risk requiring extensive precautions",
        }
    }
}

/// How soon a recommendation should be carried out.
#[derive(Debug, Clone, Copy, PartialEq, Eq, Structural)]
pub enum UrgencyLevel {
    /// Now.
    Immediate,
    /// Within a day.
    High,
    /// Within a week.
    Medium,
    /// When convenient.
    Low,
}

impl UrgencyLevel {
    /// When to act, as characters.
    pub open spec fn description_text(self) -> Seq<char> {
        match self {
            UrgencyLevel::Immediate => "Execute immediately for critical performance gains"@,
            UrgencyLevel::High => "Execute within 24 hours for significant improvements"@,
            UrgencyLevel::Medium => "Execute within a week for moderate improvements"@,
            UrgencyLevel::Low => "Execute when convenient for minor improvements"@,
        }
    }

    /// When to act.
    pub fn description(&self) -> (r: &'static str)
        ensures
            r@ == self.description_text(),
    {
        match self {
            UrgencyLevel::Immediate => "Execute immediately for critical performance gains",
            UrgencyLevel::High => "Execute within 24 hours for significant improvements",
            UrgencyLevel::Medium => "Execute within a week for moderate improvements",
            UrgencyLevel::Low => "Execute when convenient for minor improvements",
        }
    }
}

} // verus!
