//! A plain record of a memory's size, storage and use, with the last cleanup time.

use vstd::prelude::*;
use crate::atomic_stats::{clock_secs, secs_of_millis};

verus! {

/// Counts of a memory's contents and use, and when it was last cleaned up (seconds
/// since the Unix epoch).
#[derive(Debug, Clone, Copy)]
pub struct MemoryStatistics {
    /// Number of items.
    pub total_items: usize,
    /// Number of relationships.
    pub total_relationships: usize,
    /// Estimated bytes in use.
    pub memory_usage_bytes: usize,
    /// Time of the last cleanup, if any.
    pub last_cleanup_timestamp: Option<u64>,
    /// Number of cleanups.
    pub cleanup_count: usize,
    /// Number of accesses.
    pub total_access_count: usize,
    /// Number of distinct access patterns.
    pub unique_pattern_count: usize,
}

/// A cleanup is due at `now`: none was recorded, the recorded one lies in the future,
/// or more than `hours` hours (counted in whole seconds) have passed since it.
pub open spec fn cleanup_overdue(last: Option<u64>, now: u64, hours: u64) -> bool {
    match last {
        Some(t) => now < t || now - t > hours * 3600,
        None => true,
    }
}

impl MemoryStatistics {
    /// Everything zero, no cleanup recorded.
    pub fn new() -> (r: MemoryStatistics)
        ensures
            r.total_items == 0 && r.total_relationships == 0 && r.memory_usage_bytes == 0,
            r.last_cleanup_timestamp is None,
            r.cleanup_count == 0 && r.total_access_count == 0 && r.unique_pattern_count == 0,
    {
        MemoryStatistics {
            total_items: 0,
            total_relationships: 0,
            memory_usage_bytes: 0,
            last_cleanup_timestamp: None,
            cleanup_count: 0,
            total_access_count: 0,
            unique_pattern_count: 0,
        }
    }

    /// Whether a cleanup is due at `now` for a threshold of `cleanup_threshold_hours`.
    pub fn needs_cleanup_at(&self, cleanup_threshold_hours: u64, now: u64) -> (r: bool)
        requires
            cleanup_threshold_hours * 3600 <= u64::MAX,
        ensures
            r == cleanup_overdue(self.last_cleanup_timestamp, now, cleanup_threshold_hours),
    {
        match self.last_cleanup_timestamp {
            Some(last) => {
                if now < last {
                    true
                } else {
                    now - last > cleanup_threshold_hours * 3600
                }
            },
            None => true,
        }
    }

    /// Whether a cleanup is due by the current time (in whole seconds since the Unix
    /// epoch, 0 when the clock reads before it).
    pub fn needs_cleanup(&self, cleanup_threshold_hours: u64) -> (r: bool)
        requires
            cleanup_threshold_hours * 3600 <= u64::MAX,
        ensures
            self.last_cleanup_timestamp is None ==> r,
            exists|t: i64| r == cleanup_overdue(self.last_cleanup_timestamp, #[trigger] secs_of_millis(t), cleanup_threshold_hours),
    {
        let now = clock_secs();
        self.needs_cleanup_at(cleanup_threshold_hours, now)
    }

    /// Items and relationships together.
    pub fn total_entity_count(&self) -> (r: usize)
        requires
            self.total_items + self.total_relationships <= usize::MAX,
        ensures
            r == self.total_items + self.total_relationships,
    {
        self.total_items + self.total_relationships
    }

    /// Sets the counts and the bytes in use.
    pub fn update(&mut self, items: usize, relationships: usize, memory_bytes: usize)
        ensures
            *final(self) == (MemoryStatistics {
                total_items: items,
                total_relationships: relationships,
                memory_usage_bytes: memory_bytes,
                ..*old(self)
            }),
    {
        self.total_items = items;
        self.total_relationships = relationships;
        self.memory_usage_bytes = memory_bytes;
    }

    /// Counts one cleanup, done at `now`.
    pub fn record_cleanup_at(&mut self, now: u64)
        requires
            old(self).cleanup_count < usize::MAX,
        ensures
            *final(self) == (MemoryStatistics {
                last_cleanup_timestamp: Some(now),
                cleanup_count: (old(self).cleanup_count + 1) as usize,
                ..*old(self)
            }),
    {
        self.last_cleanup_timestamp = Some(now);
        self.cleanup_count = self.cleanup_count + 1;
    }

    /// Counts one cleanup, done now: its time is the current time in whole seconds since
    /// the Unix epoch (0 when the clock reads before the epoch).
    pub fn record_cleanup(&mut self)
        requires
            old(self).cleanup_count < usize::MAX,
        ensures
            exists|t: i64| final(self).last_cleanup_timestamp == Some(#[trigger] secs_of_millis(t)),
            *final(self) == (MemoryStatistics {
                last_cleanup_timestamp: final(self).last_cleanup_timestamp,
                cleanup_count: (old(self).cleanup_count + 1) as usize,
                ..*old(self)
            }),
    {
        let now = clock_secs();
        self.record_cleanup_at(now);
    }

    /// Adds `count` accesses.
    pub fn add_access_count(&mut self, count: usize)
        requires
            old(self).total_access_count + count <= usize::MAX,
        ensures
            *final(self) == (MemoryStatistics {
                total_access_count: (old(self).total_access_count + count) as usize,
                ..*old(self)
            }),
    {
        self.total_access_count = self.total_access_count + count;
    }

    /// Adds `count` distinct access patterns.
    pub fn add_unique_pattern_count(&mut self, count: usize)
        requires
            old(self).unique_pattern_count + count <= usize::MAX,
        ensures
            *final(self) == (MemoryStatistics {
                unique_pattern_count: (old(self).unique_pattern_count + count) as usize,
                ..*old(self)
            }),
    {
        self.unique_pattern_count = self.unique_pattern_count + count;
    }

    /// The counts agree: no relationships without items, no bytes without entities,
    /// no accesses without a pattern.
    pub fn is_valid(&self) -> (r: bool)
        requires
            self.total_items + self.total_relationships <= usize::MAX,
        ensures
            r == (!(self.total_relationships > 0 && self.total_items == 0) && !(self.memory_usage_bytes > 0
                && self.total_items + self.total_relationships == 0) && !(self.total_access_count > 0
                && self.unique_pattern_count == 0)),
    {
        !(self.total_relationships > 0 && self.total_items == 0) && !(self.memory_usage_bytes > 0
            && self.total_entity_count() == 0) && !(self.total_access_count > 0 && self.unique_pattern_count == 0)
    }
}

impl Default for MemoryStatistics {
    fn default() -> (r: MemoryStatistics)
        ensures
            r.total_items == 0 && r.total_relationships == 0 && r.memory_usage_bytes == 0,
            r.last_cleanup_timestamp is None,
            r.cleanup_count == 0 && r.total_access_count == 0 && r.unique_pattern_count == 0,
    {
        MemoryStatistics::new()
    }
}

} // verus!
