//! Running counters of a memory: sizes, cleanups and accesses.

use vstd::prelude::*;
use crate::clock::now_millis;

verus! {

/// The counters of an [`AtomicMemoryStatistics`], as plain numbers.
pub struct StatisticsView {
    /// Number of items.
    pub total_items: usize,
    /// Number of relationships.
    pub total_relationships: usize,
    /// Bytes used.
    pub memory_usage_bytes: usize,
    /// Cleanups recorded.
    pub cleanup_count: usize,
    /// Seconds since the Unix epoch of the last cleanup; 0 when none was recorded.
    pub last_cleanup_timestamp: u64,
    /// Accesses recorded.
    pub total_access_count: usize,
    /// Distinct access patterns recorded.
    pub unique_pattern_count: usize,
}

/// Counters of a memory. Counters that are bumped by one wrap around at the top of
/// their range; subtracting more than a counter holds wraps it too.
#[derive(Debug)]
pub struct AtomicMemoryStatistics {
    total_items: usize,
    total_relationships: usize,
    memory_usage_bytes: usize,
    cleanup_count: usize,
    last_cleanup_timestamp: u64,
    total_access_count: usize,
    unique_pattern_count: usize,
}

impl View for AtomicMemoryStatistics {
    type V = StatisticsView;

    closed spec fn view(&self) -> StatisticsView {
        StatisticsView {
            total_items: self.total_items,
            total_relationships: self.total_relationships,
            memory_usage_bytes: self.memory_usage_bytes,
            cleanup_count: self.cleanup_count,
            last_cleanup_timestamp: self.last_cleanup_timestamp,
            total_access_count: self.total_access_count,
            unique_pattern_count: self.unique_pattern_count,
        }
    }
}

/// Every counter is zero.
pub open spec fn all_zero(v: StatisticsView) -> bool {
    &&& v.total_items == 0
    &&& v.total_relationships == 0
    &&& v.memory_usage_bytes == 0
    &&& v.cleanup_count == 0
    &&& v.last_cleanup_timestamp == 0
    &&& v.total_access_count == 0
    &&& v.unique_pattern_count == 0
}

/// `count + 1`, wrapping to 0 past the top of the range.
pub open spec fn bump(count: usize) -> usize {
    if count == usize::MAX {
        0
    } else {
        (count + 1) as usize
    }
}

/// `a - b`, wrapping around below 0.
pub open spec fn wrapped_sub(a: usize, b: usize) -> usize {
    vstd::wrapping::usize_specs::wrapping_sub(a, b)
}

/// More than `threshold_hours` whole hours lie between the last cleanup and `now`
/// (seconds since the Unix epoch); always so when no cleanup was recorded.
pub open spec fn cleanup_due(last: u64, now: u64, threshold_hours: u64) -> bool {
    last == 0 || (if now >= last { (now - last) / 3600 } else { 0 }) > threshold_hours
}

/// Optimisation is due when the bytes per entity pass 2047 (measured exactly), or
/// when bytes are used with no entity at all.
pub open spec fn optimization_due(bytes: int, entities: int) -> bool {
    (entities == 0 && bytes > 0) || (entities > 0 && bytes > 2047 * entities)
}

impl AtomicMemoryStatistics {
    /// All counters at zero.
    pub fn new() -> (r: AtomicMemoryStatistics)
        ensures
            all_zero(r@),
    {
        AtomicMemoryStatistics {
            total_items: 0,
            total_relationships: 0,
            memory_usage_bytes: 0,
            cleanup_count: 0,
            last_cleanup_timestamp: 0,
            total_access_count: 0,
            unique_pattern_count: 0,
        }
    }

    /// Sets the item count.
    pub fn update_item_count(&mut self, count: usize)
        ensures
            final(self)@ == (StatisticsView { total_items: count, ..old(self)@ }),
    {
        self.total_items = count;
    }

    /// Sets the relationship count.
    pub fn update_relationship_count(&mut self, count: usize)
        ensures
            final(self)@ == (StatisticsView { total_relationships: count, ..old(self)@ }),
    {
        self.total_relationships = count;
    }

    /// Sets the memory usage in bytes.
    pub fn update_memory_usage(&mut self, bytes: usize)
        ensures
            final(self)@ == (StatisticsView { memory_usage_bytes: bytes, ..old(self)@ }),
    {
        self.memory_usage_bytes = bytes;
    }

    /// Counts one cleanup and records `now` (seconds since the Unix epoch) as its time.
    pub fn record_cleanup_at(&mut self, now: u64)
        ensures
            final(self)@ == (StatisticsView {
                cleanup_count: bump(old(self)@.cleanup_count),
                last_cleanup_timestamp: now,
                ..old(self)@
            }),
    {
        self.cleanup_count = self.cleanup_count.wrapping_add(1);
        self.last_cleanup_timestamp = now;
    }

    /// Counts one cleanup and records the current time, in whole seconds since the
    /// Unix epoch, as its time (0 when the clock reads before the epoch).
    pub fn record_cleanup(&mut self)
        ensures
            final(self)@ == (StatisticsView {
                cleanup_count: bump(old(self)@.cleanup_count),
                last_cleanup_timestamp: final(self)@.last_cleanup_timestamp,
                ..old(self)@
            }),
            exists|t: i64| final(self)@.last_cleanup_timestamp == #[trigger] secs_of_millis(t),
    {
        let now = clock_secs();
        self.record_cleanup_at(now);
    }

    /// Counts one access.
    pub fn record_access(&mut self)
        ensures
            final(self)@ == (StatisticsView { total_access_count: bump(old(self)@.total_access_count), ..old(self)@ }),
    {
        self.total_access_count = self.total_access_count.wrapping_add(1);
    }

    /// Counts one distinct access pattern.
    pub fn record_unique_pattern(&mut self)
        ensures
            final(self)@ == (StatisticsView { unique_pattern_count: bump(old(self)@.unique_pattern_count), ..old(self)@ }),
    {
        self.unique_pattern_count = self.unique_pattern_count.wrapping_add(1);
    }

    /// The item count.
    pub fn get_item_count(&self) -> (r: usize)
        ensures
            r == self@.total_items,
    {
        self.total_items
    }

    /// The relationship count.
    pub fn get_relationship_count(&self) -> (r: usize)
        ensures
            r == self@.total_relationships,
    {
        self.total_relationships
    }

    /// The memory usage in bytes.
    pub fn get_memory_usage(&self) -> (r: usize)
        ensures
            r == self@.memory_usage_bytes,
    {
        self.memory_usage_bytes
    }

    /// The number of cleanups recorded.
    pub fn get_cleanup_count(&self) -> (r: usize)
        ensures
            r == self@.cleanup_count,
    {
        self.cleanup_count
    }

    /// The number of accesses recorded.
    pub fn get_total_access_count(&self) -> (r: usize)
        ensures
            r == self@.total_access_count,
    {
        self.total_access_count
    }

    /// The number of distinct access patterns recorded.
    pub fn get_unique_pattern_count(&self) -> (r: usize)
        ensures
            r == self@.unique_pattern_count,
    {
        self.unique_pattern_count
    }

    /// Seconds since the Unix epoch of the last cleanup, if one was recorded.
    pub fn get_last_cleanup_timestamp(&self) -> (r: Option<u64>)
        ensures
            self@.last_cleanup_timestamp == 0 ==> r is None,
            self@.last_cleanup_timestamp != 0 ==> r == Some(self@.last_cleanup_timestamp),
    {
        if self.last_cleanup_timestamp == 0 {
            None
        } else {
            Some(self.last_cleanup_timestamp)
        }
    }

    /// Whether more than `cleanup_threshold_hours` whole hours passed between the last
    /// cleanup and `now` (seconds since the Unix epoch); true when none was recorded.
    pub fn needs_cleanup_at(&self, cleanup_threshold_hours: u64, now: u64) -> (r: bool)
        ensures
            r == cleanup_due(self@.last_cleanup_timestamp, now, cleanup_threshold_hours),
    {
        let last = self.last_cleanup_timestamp;
        if last == 0 {
            return true;
        }
        let elapsed_hours = now.saturating_sub(last) / 3600;
        elapsed_hours > cleanup_threshold_hours
    }

    /// Whether more than `cleanup_threshold_hours` whole hours passed since the last
    /// cleanup, by the current time; true when none was recorded.
    pub fn needs_cleanup(&self, cleanup_threshold_hours: u64) -> (r: bool)
        ensures
            self@.last_cleanup_timestamp == 0 ==> r,
            exists|t: i64| r == cleanup_due(self@.last_cleanup_timestamp, #[trigger] secs_of_millis(t), cleanup_threshold_hours),
    {
        let now = clock_secs();
        self.needs_cleanup_at(cleanup_threshold_hours, now)
    }

    /// Adds `count` items and gives the new count.
    pub fn increment_items(&mut self, count: usize) -> (r: usize)
        requires
            old(self)@.total_items + count <= usize::MAX,
        ensures
            r == old(self)@.total_items + count,
            final(self)@ == (StatisticsView { total_items: r, ..old(self)@ }),
    {
        self.total_items = self.total_items + count;
        self.total_items
    }

    /// Takes `count` items away and gives the count floored at 0; the stored count
    /// wraps when `count` exceeds it.
    pub fn decrement_items(&mut self, count: usize) -> (r: usize)
        ensures
            r == (if old(self)@.total_items >= count { old(self)@.total_items - count } else { 0 }),
            final(self)@ == (StatisticsView { total_items: wrapped_sub(old(self)@.total_items, count), ..old(self)@ }),
    {
        let before = self.total_items;
        self.total_items = before.wrapping_sub(count);
        before.saturating_sub(count)
    }

    /// Adds `count` relationships and gives the new count.
    pub fn increment_relationships(&mut self, count: usize) -> (r: usize)
        requires
            old(self)@.total_relationships + count <= usize::MAX,
        ensures
            r == old(self)@.total_relationships + count,
            final(self)@ == (StatisticsView { total_relationships: r, ..old(self)@ }),
    {
        self.total_relationships = self.total_relationships + count;
        self.total_relationships
    }

    /// Takes `count` relationships away and gives the count floored at 0; the stored
    /// count wraps when `count` exceeds it.
    pub fn decrement_relationships(&mut self, count: usize) -> (r: usize)
        ensures
            r == (if old(self)@.total_relationships >= count { old(self)@.total_relationships - count } else { 0 }),
            final(self)@ == (StatisticsView {
                total_relationships: wrapped_sub(old(self)@.total_relationships, count),
                ..old(self)@
            }),
    {
        let before = self.total_relationships;
        self.total_relationships = before.wrapping_sub(count);
        before.saturating_sub(count)
    }

    /// Adds `bytes` to the memory usage and gives the new usage.
    pub fn add_memory_usage(&mut self, bytes: usize) -> (r: usize)
        requires
            old(self)@.memory_usage_bytes + bytes <= usize::MAX,
        ensures
            r == old(self)@.memory_usage_bytes + bytes,
            final(self)@ == (StatisticsView { memory_usage_bytes: r, ..old(self)@ }),
    {
        self.memory_usage_bytes = self.memory_usage_bytes + bytes;
        self.memory_usage_bytes
    }

    /// Takes `bytes` from the memory usage and gives the usage floored at 0; the stored
    /// usage wraps when `bytes` exceeds it.
    pub fn subtract_memory_usage(&mut self, bytes: usize) -> (r: usize)
        ensures
            r == (if old(self)@.memory_usage_bytes >= bytes { old(self)@.memory_usage_bytes - bytes } else { 0 }),
            final(self)@ == (StatisticsView {
                memory_usage_bytes: wrapped_sub(old(self)@.memory_usage_bytes, bytes),
                ..old(self)@
            }),
    {
        let before = self.memory_usage_bytes;
        self.memory_usage_bytes = before.wrapping_sub(bytes);
        before.saturating_sub(bytes)
    }

    /// Sets every counter back to zero.
    pub fn reset(&mut self)
        ensures
            all_zero(final(self)@),
    {
        self.total_items = 0;
        self.total_relationships = 0;
        self.memory_usage_bytes = 0;
        self.cleanup_count = 0;
        self.last_cleanup_timestamp = 0;
        self.total_access_count = 0;
        self.unique_pattern_count = 0;
    }

    /// Items plus relationships.
    pub fn get_total_entity_count(&self) -> (r: usize)
        requires
            self@.total_items + self@.total_relationships <= usize::MAX,
        ensures
            r == self@.total_items + self@.total_relationships,
    {
        self.total_items + self.total_relationships
    }

    /// Whether the memory uses more than 2047 bytes per entity, or uses bytes while
    /// holding no entity.
    pub fn needs_optimization(&self) -> (r: bool)
        requires
            self@.total_items + self@.total_relationships <= usize::MAX,
        ensures
            r == optimization_due(
                self@.memory_usage_bytes as int,
                self@.total_items + self@.total_relationships,
            ),
    {
        let entities = self.total_items + self.total_relationships;
        let bytes = self.memory_usage_bytes;
        if entities == 0 {
            bytes > 0
        } else {
            bytes / 2047 > entities || (bytes / 2047 == entities && bytes % 2047 > 0)
        }
    }
}

impl Default for AtomicMemoryStatistics {
    fn default() -> (r: AtomicMemoryStatistics)
        ensures
            all_zero(r@),
    {
        AtomicMemoryStatistics::new()
    }
}

/// Whole seconds in `millis` milliseconds since the Unix epoch, 0 for a time before it.
pub open spec fn secs_of_millis(millis: i64) -> u64 {
    if millis < 0 {
        0
    } else {
        (millis / 1000) as u64
    }
}

/// The current time in seconds since the Unix epoch, 0 when the clock reads before it:
/// the whole seconds of some reading of the clock in milliseconds.
pub fn clock_secs() -> (r: u64)
    ensures
        exists|t: i64| r == #[trigger] secs_of_millis(t),
{
    let t = now_millis();
    let r: u64 = if t < 0 {
        0
    } else {
        (t / 1000) as u64
    };
    assert(r == secs_of_millis(t));
    r
}

} // verus!
