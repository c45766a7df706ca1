//! Settings of the memory manager: cleanup rules, optimisation strategy, tracking.

use vstd::prelude::*;
use crate::confidence::ConfidenceLevel;
use crate::text::owned;

verus! {

/// When stored knowledge is cleaned up.
#[derive(Debug, Clone, Copy)]
pub struct CleanupConfig {
    /// Items older than this many days are candidates.
    pub max_age_days: u64,
    /// Items below this confidence are candidates.
    pub min_confidence_threshold: ConfidenceLevel,
    /// Items unused for this many days are candidates.
    pub max_unused_days: u64,
    /// Whether high-confidence items are always kept.
    pub preserve_high_confidence: bool,
    /// How many items one cleanup pass handles.
    pub batch_size: usize,
}

impl CleanupConfig {
    /// The default rules.
    pub open spec fn new_spec() -> CleanupConfig {
        CleanupConfig {
            max_age_days: 365,
            min_confidence_threshold: ConfidenceLevel::Low,
            max_unused_days: 90,
            preserve_high_confidence: true,
            batch_size: 1000,
        }
    }

    /// The aggressive rules.
    pub open spec fn aggressive_spec() -> CleanupConfig {
        CleanupConfig {
            max_age_days: 30,
            min_confidence_threshold: ConfidenceLevel::Medium,
            max_unused_days: 7,
            preserve_high_confidence: false,
            batch_size: 500,
        }
    }

    /// The conservative rules.
    pub open spec fn conservative_spec() -> CleanupConfig {
        CleanupConfig {
            max_age_days: 730,
            min_confidence_threshold: ConfidenceLevel::VeryLow,
            max_unused_days: 180,
            preserve_high_confidence: true,
            batch_size: 2000,
        }
    }

    /// Positive ages and batch size, and the unused limit within the age limit.
    pub open spec fn valid_spec(self) -> bool {
        self.max_age_days > 0 && self.max_unused_days > 0 && self.batch_size > 0 && self.max_unused_days <= self.max_age_days
    }

    /// The default rules: a year of age, low confidence, ninety unused days, high
    /// confidence kept, batches of a thousand.
    pub fn new() -> (r: CleanupConfig)
        ensures
            r.max_age_days == 365 && r.min_confidence_threshold == ConfidenceLevel::Low && r.max_unused_days == 90
                && r.preserve_high_confidence && r.batch_size == 1000,
    {
        CleanupConfig {
            max_age_days: 365,
            min_confidence_threshold: ConfidenceLevel::Low,
            max_unused_days: 90,
            preserve_high_confidence: true,
            batch_size: 1000,
        }
    }

    /// Aggressive rules: thirty days of age, medium confidence, a week unused, nothing
    /// kept for its confidence, batches of five hundred.
    pub fn aggressive() -> (r: CleanupConfig)
        ensures
            r.max_age_days == 30 && r.min_confidence_threshold == ConfidenceLevel::Medium && r.max_unused_days == 7
                && !r.preserve_high_confidence && r.batch_size == 500,
    {
        CleanupConfig {
            max_age_days: 30,
            min_confidence_threshold: ConfidenceLevel::Medium,
            max_unused_days: 7,
            preserve_high_confidence: false,
            batch_size: 500,
        }
    }

    /// Conservative rules: two years of age, very low confidence, six months unused,
    /// high confidence kept, batches of two thousand.
    pub fn conservative() -> (r: CleanupConfig)
        ensures
            r.max_age_days == 730 && r.min_confidence_threshold == ConfidenceLevel::VeryLow && r.max_unused_days == 180
                && r.preserve_high_confidence && r.batch_size == 2000,
    {
        CleanupConfig {
            max_age_days: 730,
            min_confidence_threshold: ConfidenceLevel::VeryLow,
            max_unused_days: 180,
            preserve_high_confidence: true,
            batch_size: 2000,
        }
    }

    /// Positive ages and batch size, and the unused limit within the age limit.
    pub fn is_valid(&self) -> (r: bool)
        ensures
            r == (self.max_age_days > 0 && self.max_unused_days > 0 && self.batch_size > 0 && self.max_unused_days
                <= self.max_age_days),
    {
        self.max_age_days > 0 && self.max_unused_days > 0 && self.batch_size > 0 && self.max_unused_days <= self.max_age_days
    }

    /// Hours between cleanups: daily up to a week unused, every three days up to a
    /// month, weekly beyond.
    pub fn estimated_cleanup_frequency(&self) -> (r: u64)
        ensures
            r == (if self.max_unused_days <= 7 {
                24u64
            } else if self.max_unused_days <= 30 {
                72u64
            } else {
                168u64
            }),
    {
        if self.max_unused_days <= 7 {
            24
        } else if self.max_unused_days <= 30 {
            72
        } else {
            168
        }
    }
}

impl Default for CleanupConfig {
    fn default() -> (r: CleanupConfig)
        ensures
            r.max_age_days == 365 && r.min_confidence_threshold == ConfidenceLevel::Low && r.max_unused_days == 90
                && r.preserve_high_confidence && r.batch_size == 1000,
    {
        CleanupConfig::new()
    }
}

/// What memory optimisation favours.
#[derive(Debug, Clone, Copy, PartialEq, Eq, Structural)]
pub enum OptimizationStrategy {
    /// Speed, at the cost of memory.
    Speed,
    /// Memory, at the cost of speed.
    Memory,
    /// Both alike.
    Balanced,
}

impl OptimizationStrategy {
    /// Entries above which data is compressed.
    pub fn compression_threshold(&self) -> (r: usize)
        ensures
            r == (match self {
                OptimizationStrategy::Speed => 10000usize,
                OptimizationStrategy::Memory => 100usize,
                OptimizationStrategy::Balanced => 1000usize,
            }),
    {
        match self {
            OptimizationStrategy::Speed => 10000,
            OptimizationStrategy::Memory => 100,
            OptimizationStrategy::Balanced => 1000,
        }
    }

    /// Hours between cleanups.
    pub fn cleanup_frequency_hours(&self) -> (r: u64)
        ensures
            r == (match self {
                OptimizationStrategy::Speed => 168u64,
                OptimizationStrategy::Memory => 24u64,
                OptimizationStrategy::Balanced => 72u64,
            }),
    {
        match self {
            OptimizationStrategy::Speed => 168,
            OptimizationStrategy::Memory => 24,
            OptimizationStrategy::Balanced => 72,
        }
    }

    /// How closely accesses are tracked.
    pub fn access_tracking_level(&self) -> (r: AccessTrackingLevel)
        ensures
            r == (match self {
                OptimizationStrategy::Speed => AccessTrackingLevel::Minimal,
                OptimizationStrategy::Memory => AccessTrackingLevel::Detailed,
                OptimizationStrategy::Balanced => AccessTrackingLevel::Moderate,
            }),
    {
        match self {
            OptimizationStrategy::Speed => AccessTrackingLevel::Minimal,
            OptimizationStrategy::Memory => AccessTrackingLevel::Detailed,
            OptimizationStrategy::Balanced => AccessTrackingLevel::Moderate,
        }
    }

    /// Whether speed comes first.
    pub fn prioritizes_speed(&self) -> (r: bool)
        ensures
            r == (self == OptimizationStrategy::Speed),
    {
        match self {
            OptimizationStrategy::Speed => true,
            OptimizationStrategy::Memory => false,
            OptimizationStrategy::Balanced => false,
        }
    }

    /// Whether memory comes first.
    pub fn prioritizes_memory(&self) -> (r: bool)
        ensures
            r == (self == OptimizationStrategy::Memory),
    {
        match self {
            OptimizationStrategy::Speed => false,
            OptimizationStrategy::Memory => true,
            OptimizationStrategy::Balanced => false,
        }
    }

    /// What the strategy trades, as characters.
    pub open spec fn description_text(self) -> Seq<char> {
        match self {
            OptimizationStrategy::Speed => "Speed-optimized with higher memory usage"@,
            OptimizationStrategy::Memory => "Memory-optimized with potential speed trade-offs"@,
            OptimizationStrategy::Balanced => "Balanced optimization for both speed and memory"@,
        }
    }

    /// What the strategy trades.
    pub fn description(&self) -> (r: &'static str)
        ensures
            r@ == self.description_text(),
    {
        match self {
            OptimizationStrategy::Speed => "Speed-optimized with higher memory usage",
            OptimizationStrategy::Memory => "Memory-optimized with potential speed trade-offs",
            OptimizationStrategy::Balanced => "Balanced optimization for both speed and memory",
        }
    }

    /// The strategy's name, as characters.
    pub open spec fn name_text(self) -> Seq<char> {
        match self {
            OptimizationStrategy::Speed => "Speed"@,
            OptimizationStrategy::Memory => "Memory"@,
            OptimizationStrategy::Balanced => "Balanced"@,
        }
    }

    /// The strategy's name.
    pub fn name(&self) -> (r: &'static str)
        ensures
            r@ == self.name_text(),
    {
        match self {
            OptimizationStrategy::Speed => "Speed",
            OptimizationStrategy::Memory => "Memory",
            OptimizationStrategy::Balanced => "Balanced",
        }
    }

    /// The strategy's name, owned.
    pub fn to_string(&self) -> (r: String)
        ensures
            r@ == self.name_text(),
    {
        owned(self.name())
    }
}

impl Default for OptimizationStrategy {
    fn default() -> (r: OptimizationStrategy)
        ensures
            r == OptimizationStrategy::Balanced,
    {
        OptimizationStrategy::Balanced
    }
}

/// How closely access patterns are tracked.
#[derive(Debug, Clone, Copy, PartialEq, Eq, Structural)]
pub enum AccessTrackingLevel {
    /// As little as possible, for speed.
    Minimal,
    /// A balance.
    Moderate,
    /// Every access, for memory savings.
    Detailed,
}

impl AccessTrackingLevel {
    /// The most patterns tracked at once.
    pub fn max_tracked_patterns(&self) -> (r: usize)
        ensures
            r == (match self {
                AccessTrackingLevel::Minimal => 100usize,
                AccessTrackingLevel::Moderate => 1000usize,
                AccessTrackingLevel::Detailed => 10000usize,
            }),
    {
        match self {
            AccessTrackingLevel::Minimal => 100,
            AccessTrackingLevel::Moderate => 1000,
            AccessTrackingLevel::Detailed => 10000,
        }
    }

    /// Tracking is updated every this many accesses.
    pub fn update_frequency(&self) -> (r: usize)
        ensures
            r == (match self {
                AccessTrackingLevel::Minimal => 10usize,
                AccessTrackingLevel::Moderate => 5usize,
                AccessTrackingLevel::Detailed => 1usize,
            }),
    {
        match self {
            AccessTrackingLevel::Minimal => 10,
            AccessTrackingLevel::Moderate => 5,
            AccessTrackingLevel::Detailed => 1,
        }
    }
}

/// The whole memory management configuration.
#[derive(Debug, Clone, Copy)]
pub struct MemoryManagementConfig {
    /// Cleanup rules.
    pub cleanup_config: CleanupConfig,
    /// What optimisation favours.
    pub optimization_strategy: OptimizationStrategy,
    /// Whether the cache is on.
    pub cache_enabled: bool,
    /// How closely accesses are tracked.
    pub access_tracking_level: AccessTrackingLevel,
    /// The memory limit in megabytes, if any.
    pub max_memory_usage_mb: Option<usize>,
}

/// Megabytes in bytes.
pub open spec fn mb_bytes(mb: usize) -> int {
    mb * 1024 * 1024
}

impl MemoryManagementConfig {
    /// Default cleanup, balanced strategy, cache on, moderate tracking, no limit.
    pub fn new() -> (r: MemoryManagementConfig)
        ensures
            r.cleanup_config == CleanupConfig::new_spec(),
            r.optimization_strategy == OptimizationStrategy::Balanced,
            r.cache_enabled,
            r.access_tracking_level == AccessTrackingLevel::Moderate,
            r.max_memory_usage_mb is None,
    {
        MemoryManagementConfig {
            cleanup_config: CleanupConfig::new(),
            optimization_strategy: OptimizationStrategy::Balanced,
            cache_enabled: true,
            access_tracking_level: AccessTrackingLevel::Moderate,
            max_memory_usage_mb: None,
        }
    }

    /// Conservative cleanup, speed strategy, cache on, minimal tracking, no limit.
    pub fn high_performance() -> (r: MemoryManagementConfig)
        ensures
            r.cleanup_config == CleanupConfig::conservative_spec(),
            r.optimization_strategy == OptimizationStrategy::Speed,
            r.cache_enabled,
            r.access_tracking_level == AccessTrackingLevel::Minimal,
            r.max_memory_usage_mb is None,
    {
        MemoryManagementConfig {
            cleanup_config: CleanupConfig::conservative(),
            optimization_strategy: OptimizationStrategy::Speed,
            cache_enabled: true,
            access_tracking_level: AccessTrackingLevel::Minimal,
            max_memory_usage_mb: None,
        }
    }

    /// Aggressive cleanup, memory strategy, cache off, detailed tracking, a limit of
    /// `max_mb` megabytes.
    pub fn memory_constrained(max_mb: usize) -> (r: MemoryManagementConfig)
        ensures
            r.cleanup_config == CleanupConfig::aggressive_spec(),
            r.optimization_strategy == OptimizationStrategy::Memory,
            !r.cache_enabled,
            r.access_tracking_level == AccessTrackingLevel::Detailed,
            r.max_memory_usage_mb == Some(max_mb),
    {
        MemoryManagementConfig {
            cleanup_config: CleanupConfig::aggressive(),
            optimization_strategy: OptimizationStrategy::Memory,
            cache_enabled: false,
            access_tracking_level: AccessTrackingLevel::Detailed,
            max_memory_usage_mb: Some(max_mb),
        }
    }

    /// Checks the cleanup rules, then a zero memory limit.
    pub fn validate(&self) -> (r: Result<(), String>)
        ensures
            !self.cleanup_config.valid_spec() ==> (r matches Err(m) && m@ == "Invalid cleanup configuration"@),
            self.cleanup_config.valid_spec() && self.max_memory_usage_mb == Some(0usize) ==> (r matches Err(m) && m@
                == "Maximum memory usage must be greater than 0"@),
            r is Ok <==> (self.cleanup_config.valid_spec() && self.max_memory_usage_mb != Some(0usize)),
    {
        if !self.cleanup_config.is_valid() {
            return Err(owned("Invalid cleanup configuration"));
        }
        match self.max_memory_usage_mb {
            Some(max_mb) => {
                if max_mb == 0 {
                    return Err(owned("Maximum memory usage must be greater than 0"));
                }
            },
            None => {},
        }
        Ok(())
    }

    /// Whether `current_usage_bytes` is within the memory limit (always, without one).
    pub fn is_within_memory_limits(&self, current_usage_bytes: usize) -> (r: bool)
        requires
            self.max_memory_usage_mb is Some ==> mb_bytes(self.max_memory_usage_mb->0) <= usize::MAX,
        ensures
            r == (match self.max_memory_usage_mb {
                Some(mb) => current_usage_bytes <= mb_bytes(mb),
                None => true,
            }),
    {
        match self.max_memory_usage_mb {
            Some(max_mb) => {
                let max_bytes = max_mb * 1024 * 1024;
                current_usage_bytes <= max_bytes
            },
            None => true,
        }
    }
}

impl Default for MemoryManagementConfig {
    fn default() -> (r: MemoryManagementConfig)
        ensures
            r.cleanup_config == CleanupConfig::new_spec(),
            r.optimization_strategy == OptimizationStrategy::Balanced,
            r.cache_enabled,
            r.access_tracking_level == AccessTrackingLevel::Moderate,
            r.max_memory_usage_mb is None,
    {
        MemoryManagementConfig::new()
    }
}

} // verus!
