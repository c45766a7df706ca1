//! Kinds of health findings, their severity, and the direction health moves in.

use vstd::prelude::*;
use crate::text::{ascii_lowered, ascii_only, has_substring, lowercase, str_contains, to_lowercase};

verus! {

/// How urgent a health issue is.
#[derive(Debug, Clone, Copy, PartialEq, Eq, Structural)]
pub enum IssueSeverity {
    /// Immediate action required.
    Critical,
    /// Action required within a day.
    High,
    /// Action required within a week.
    Medium,
    /// Action can be scheduled.
    Low,
}

impl IssueSeverity {
    /// What the severity asks for, as characters.
    pub open spec fn description_text(self) -> Seq<char> {
        match self {
            IssueSeverity::Critical => "Critical - Immediate action required"@,
            IssueSeverity::High => "High - Action required within 24 hours"@,
            IssueSeverity::Medium => "Medium - Action required within a week"@,
            IssueSeverity::Low => "Low - Action can be scheduled"@,
        }
    }

    /// What the severity asks for.
    pub fn description(&self) -> (r: &'static str)
        ensures
            r@ == self.description_text(),
    {
        match self {
            IssueSeverity::Critical => "Critical - Immediate action required",
            IssueSeverity::High => "High - Action required within 24 hours",
            IssueSeverity::Medium => "Medium - Action required within a week",
            IssueSeverity::Low => "Low - Action can be scheduled",
        }
    }

    /// A short label for display, as characters.
    pub open spec fn short_text(self) -> Seq<char> {
        match self {
            IssueSeverity::Critical => "CRIT"@,
            IssueSeverity::High => "HIGH"@,
            IssueSeverity::Medium => "MED"@,
            IssueSeverity::Low => "LOW"@,
        }
    }

    /// A short label for display.
    pub fn short_name(&self) -> (r: &'static str)
        ensures
            r@ == self.short_text(),
    {
        match self {
            IssueSeverity::Critical => "CRIT",
            IssueSeverity::High => "HIGH",
            IssueSeverity::Medium => "MED",
            IssueSeverity::Low => "LOW",
        }
    }
}

/// The area a health issue belongs to.
#[derive(Debug, Clone, Copy, PartialEq, Eq, Structural)]
pub enum IssueCategory {
    /// Memory management.
    Memory,
    /// Performance.
    Performance,
    /// Data integrity.
    DataIntegrity,
    /// Configuration.
    Configuration,
    /// Resources (CPU, disk).
    Resource,
    /// Network operations.
    Network,
    /// None of the above.
    Unknown,
}

/// The category a lower-cased component name falls in: the first of memory, cache or
/// performance, data or integrity, config, resource or cpu or disk, network that it
/// contains.
pub open spec fn category_of(s: Seq<char>) -> IssueCategory {
    if has_substring(s, "memory"@) {
        IssueCategory::Memory
    } else if has_substring(s, "cache"@) || has_substring(s, "performance"@) {
        IssueCategory::Performance
    } else if has_substring(s, "data"@) || has_substring(s, "integrity"@) {
        IssueCategory::DataIntegrity
    } else if has_substring(s, "config"@) {
        IssueCategory::Configuration
    } else if has_substring(s, "resource"@) || has_substring(s, "cpu"@) || has_substring(s, "disk"@) {
        IssueCategory::Resource
    } else if has_substring(s, "network"@) {
        IssueCategory::Network
    } else {
        IssueCategory::Unknown
    }
}

impl IssueCategory {
    /// The category of a component, by the words its lower-cased name contains.
    pub fn from_component(component: &str) -> (r: IssueCategory)
        ensures
            r == category_of(lowercase(component@)),
            ascii_only(component@) ==> lowercase(component@) == ascii_lowered(component@),
    {
        let lower = to_lowercase(component);
        let s = lower.as_str();
        if str_contains(s, "memory") {
            IssueCategory::Memory
        } else if str_contains(s, "cache") || str_contains(s, "performance") {
            IssueCategory::Performance
        } else if str_contains(s, "data") || str_contains(s, "integrity") {
            IssueCategory::DataIntegrity
        } else if str_contains(s, "config") {
            IssueCategory::Configuration
        } else if str_contains(s, "resource") || str_contains(s, "cpu") || str_contains(s, "disk") {
            IssueCategory::Resource
        } else if str_contains(s, "network") {
            IssueCategory::Network
        } else {
            IssueCategory::Unknown
        }
    }

    /// The category's title, as characters.
    pub open spec fn description_text(self) -> Seq<char> {
        match self {
            IssueCategory::Memory => "Memory Management"@,
            IssueCategory::Performance => "Performance Optimization"@,
            IssueCategory::DataIntegrity => "Data Integrity"@,
            IssueCategory::Configuration => "Configuration"@,
            IssueCategory::Resource => "Resource Management"@,
            IssueCategory::Network => "Network Operations"@,
            IssueCategory::Unknown => "Unknown Category"@,
        }
    }

    /// The category's title.
    pub fn description(&self) -> (r: &'static str)
        ensures
            r@ == self.description_text(),
    {
        match self {
            IssueCategory::Memory => "Memory Management",
            IssueCategory::Performance => "Performance Optimization",
            IssueCategory::DataIntegrity => "Data Integrity",
            IssueCategory::Configuration => "Configuration",
            IssueCategory::Resource => "Resource Management",
            IssueCategory::Network => "Network Operations",
            IssueCategory::Unknown => "Unknown Category",
        }
    }
}

/// Overall health, from best to worst.
#[derive(Debug, Clone, Copy, PartialEq, Eq, Structural)]
pub enum HealthStatus {
    /// No concern.
    Excellent,
    /// Minor concerns.
    Good,
    /// Some concerns.
    Fair,
    /// Serious concerns.
    Poor,
    /// Immediate attention needed.
    Critical,
}

impl HealthStatus {
    /// The status's name, as characters.
    pub open spec fn description_text(self) -> Seq<char> {
        match self {
            HealthStatus::Excellent => "Excellent"@,
            HealthStatus::Good => "Good"@,
            HealthStatus::Fair => "Fair"@,
            HealthStatus::Poor => "Poor"@,
            HealthStatus::Critical => "Critical"@,
        }
    }

    /// The status's name.
    pub fn description(&self) -> (r: &'static str)
        ensures
            r@ == self.description_text(),
    {
        match self {
            HealthStatus::Excellent => "Excellent",
            HealthStatus::Good => "Good",
            HealthStatus::Fair => "Fair",
            HealthStatus::Poor => "Poor",
            HealthStatus::Critical => "Critical",
        }
    }

    /// The colour used to show the status, as characters.
    pub open spec fn color_text(self) -> Seq<char> {
        match self {
            HealthStatus::Excellent => "green"@,
            HealthStatus::Good => "lightgreen"@,
            HealthStatus::Fair => "yellow"@,
            HealthStatus::Poor => "orange"@,
            HealthStatus::Critical => "red"@,
        }
    }

    /// The colour used to show the status.
    pub fn color_code(&self) -> (r: &'static str)
        ensures
            r@ == self.color_text(),
    {
        match self {
            HealthStatus::Excellent => "green",
            HealthStatus::Good => "lightgreen",
            HealthStatus::Fair => "yellow",
            HealthStatus::Poor => "orange",
            HealthStatus::Critical => "red",
        }
    }
}

/// The direction health is moving in.
#[derive(Debug, Clone, Copy, PartialEq, Eq, Structural)]
pub enum HealthTrend {
    /// Getting better.
    Improving,
    /// Holding steady.
    Stable,
    /// Getting worse.
    Declining,
    /// Not enough history.
    Unknown,
}

impl HealthTrend {
    /// The trend's name, as characters.
    pub open spec fn description_text(self) -> Seq<char> {
        match self {
            HealthTrend::Improving => "Improving"@,
            HealthTrend::Stable => "Stable"@,
            HealthTrend::Declining => "Declining"@,
            HealthTrend::Unknown => "Unknown"@,
        }
    }

    /// The trend's name.
    pub fn description(&self) -> (r: &'static str)
        ensures
            r@ == self.description_text(),
    {
        match self {
            HealthTrend::Improving => "Improving",
            HealthTrend::Stable => "Stable",
            HealthTrend::Declining => "Declining",
            HealthTrend::Unknown => "Unknown",
        }
    }

    /// An arrow for the trend, as characters.
    pub open spec fn symbol_text(self) -> Seq<char> {
        match self {
            HealthTrend::Improving => "↗"@,
            HealthTrend::Stable => "→"@,
            HealthTrend::Declining => "↘"@,
            HealthTrend::Unknown => "?"@,
        }
    }

    /// An arrow for the trend.
    pub fn symbol(&self) -> (r: &'static str)
        ensures
            r@ == self.symbol_text(),
    {
        match self {
            HealthTrend::Improving => "↗",
            HealthTrend::Stable => "→",
            HealthTrend::Declining => "↘",
            HealthTrend::Unknown => "?",
        }
    }

    /// The colour used to show the trend, as characters.
    pub open spec fn color_text(self) -> Seq<char> {
        match self {
            HealthTrend::Improving => "green"@,
            HealthTrend::Stable => "blue"@,
            HealthTrend::Declining => "red"@,
            HealthTrend::Unknown => "gray"@,
        }
    }

    /// The colour used to show the trend.
    pub fn color_code(&self) -> (r: &'static str)
        ensures
            r@ == self.color_text(),
    {
        match self {
            HealthTrend::Improving => "green",
            HealthTrend::Stable => "blue",
            HealthTrend::Declining => "red",
            HealthTrend::Unknown => "gray",
        }
    }
}

} // verus!
