//! States reported by the optimisation executor and its cache.

use vstd::prelude::*;

verus! {

/// The direction performance is moving in.
#[derive(Debug, Clone, Copy, PartialEq, Eq, Structural)]
pub enum PerformanceTrend {
    /// Getting better.
    Improving,
    /// Holding steady.
    Stable,
    /// Getting worse.
    Declining,
}

impl PerformanceTrend {
    /// What the trend means, as characters.
    pub open spec fn description_text(self) -> Seq<char> {
        match self {
            PerformanceTrend::Improving => "Performance is improving over time"@,
            PerformanceTrend::Stable => "Performance is stable"@,
            PerformanceTrend::Declining => "Performance is declining over time"@,
        }
    }

    /// What the trend means.
    pub fn description(&self) -> (r: &'static str)
        ensures
            r@ == self.description_text(),
    {
        match self {
            PerformanceTrend::Improving => "Performance is improving over time",
            PerformanceTrend::Stable => "Performance is stable",
            PerformanceTrend::Declining => "Performance is declining over time",
        }
    }

    /// Whether the trend is not declining.
    pub fn is_positive(&self) -> (r: bool)
        ensures
            r == (self == PerformanceTrend::Improving || self == PerformanceTrend::Stable),
    {
        match self {
            PerformanceTrend::Improving => true,
            PerformanceTrend::Stable => true,
            PerformanceTrend::Declining => false,
        }
    }
}

/// How well the cache is doing.
#[derive(Debug, Clone, Copy, PartialEq, Eq, Structural)]
pub enum CacheHealthStatus {
    /// Excellent.
    Excellent,
    /// Good.
    Good,
    /// Fair.
    Fair,
    /// Poor.
    Poor,
}

impl CacheHealthStatus {
    /// What the status means, as characters.
    pub open spec fn description_text(self) -> Seq<char> {
        match self {
            CacheHealthStatus::Excellent => "Cache is performing excellently"@,
            CacheHealthStatus::Good => "Cache is performing well"@,
            CacheHealthStatus::Fair => "Cache performance is fair"@,
            CacheHealthStatus::Poor => "Cache performance is poor"@,
        }
    }

    /// What the status means.
    pub fn description(&self) -> (r: &'static str)
        ensures
            r@ == self.description_text(),
    {
        match self {
            CacheHealthStatus::Excellent => "Cache is performing excellently",
            CacheHealthStatus::Good => "Cache is performing well",
            CacheHealthStatus::Fair => "Cache performance is fair",
            CacheHealthStatus::Poor => "Cache performance is poor",
        }
    }

    /// Whether the cache needs attention.
    pub fn requires_attention(&self) -> (r: bool)
        ensures
            r == (self == CacheHealthStatus::Fair || self == CacheHealthStatus::Poor),
    {
        match self {
            CacheHealthStatus::Excellent => false,
            CacheHealthStatus::Good => false,
            CacheHealthStatus::Fair => true,
            CacheHealthStatus::Poor => true,
        }
    }
}

/// How fast the cache serves.
#[derive(Debug, Clone, Copy, PartialEq, Eq, Structural)]
pub enum CachePerformanceLevel {
    /// Excellent.
    Excellent,
    /// Good.
    Good,
    /// Fair.
    Fair,
    /// Poor.
    Poor,
}

impl CachePerformanceLevel {
    /// What the level means, as characters.
    pub open spec fn description_text(self) -> Seq<char> {
        match self {
            CachePerformanceLevel::Excellent => "Excellent cache performance"@,
            CachePerformanceLevel::Good => "Good cache performance"@,
            CachePerformanceLevel::Fair => "Fair cache performance"@,
            CachePerformanceLevel::Poor => "Poor cache performance"@,
        }
    }

    /// What the level means.
    pub fn description(&self) -> (r: &'static str)
        ensures
            r@ == self.description_text(),
    {
        match self {
            CachePerformanceLevel::Excellent => "Excellent cache performance",
            CachePerformanceLevel::Good => "Good cache performance",
            CachePerformanceLevel::Fair => "Fair cache performance",
            CachePerformanceLevel::Poor => "Poor cache performance",
        }
    }
}

/// How the executor is doing.
#[derive(Debug, Clone, Copy, PartialEq, Eq, Structural)]
pub enum ExecutorHealthStatus {
    /// Normal.
    Healthy,
    /// Degraded.
    Degraded,
    /// Critical issues.
    Critical,
    /// Not known.
    Unknown,
}

impl ExecutorHealthStatus {
    /// What the status means, as characters.
    pub open spec fn description_text(self) -> Seq<char> {
        match self {
            ExecutorHealthStatus::Healthy => "Executor is operating normally"@,
            ExecutorHealthStatus::Degraded => "Executor performance is degraded"@,
            ExecutorHealthStatus::Critical => "Executor has critical issues"@,
            ExecutorHealthStatus::Unknown => "Executor status is unknown"@,
        }
    }

    /// What the status means.
    pub fn description(&self) -> (r: &'static str)
        ensures
            r@ == self.description_text(),
    {
        match self {
            ExecutorHealthStatus::Healthy => "Executor is operating normally",
            ExecutorHealthStatus::Degraded => "Executor performance is degraded",
            ExecutorHealthStatus::Critical => "Executor has critical issues",
            ExecutorHealthStatus::Unknown => "Executor status is unknown",
        }
    }

    /// Whether the executor needs attention.
    pub fn requires_attention(&self) -> (r: bool)
        ensures
            r == (self == ExecutorHealthStatus::Degraded || self == ExecutorHealthStatus::Critical),
    {
        match self {
            ExecutorHealthStatus::Healthy => false,
            ExecutorHealthStatus::Degraded => true,
            ExecutorHealthStatus::Critical => true,
            ExecutorHealthStatus::Unknown => false,
        }
    }
}

/// A summary of how the executor is configured.
#[derive(Debug)]
pub struct ExecutorConfiguration {
    /// The strategy's kind.
    pub strategy_type: String,
    /// How many results the cache holds.
    pub cache_capacity: usize,
    /// The safety level's name.
    pub safety_level: String,
    /// The longest an optimisation may run.
    pub max_execution_time: std::time::Duration,
    /// The most operations one run may perform.
    pub max_operations: usize,
    /// Whether operations may run in parallel.
    pub parallel_execution_enabled: bool,
}

} // verus!
