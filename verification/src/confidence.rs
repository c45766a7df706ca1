//! Confidence levels attached to items and relationships.

use vstd::prelude::*;
use crate::text::str_eq;

verus! {

/// How confident the memory is in an item, from lowest to highest.
#[derive(Clone, Copy, Debug, PartialEq, Eq, Structural, PartialOrd, Ord, Hash)]
pub enum ConfidenceLevel {
    /// Very low confidence (0.1)
    VeryLow,
    /// Low confidence (0.3)
    Low,
    /// Medium confidence (0.5)
    Medium,
    /// High confidence (0.7)
    High,
    /// Very high confidence (0.9)
    VeryHigh,
}

impl ConfidenceLevel {
    /// Position of the level in the order VeryLow < Low < Medium < High < VeryHigh.
    pub open spec fn rank(self) -> int {
        match self {
            ConfidenceLevel::VeryLow => 0,
            ConfidenceLevel::Low => 1,
            ConfidenceLevel::Medium => 2,
            ConfidenceLevel::High => 3,
            ConfidenceLevel::VeryHigh => 4,
        }
    }

    /// The level at position `r` of the order (the inverse of `rank` on 0..5).
    pub open spec fn from_rank(r: int) -> ConfidenceLevel {
        if r <= 0 {
            ConfidenceLevel::VeryLow
        } else if r == 1 {
            ConfidenceLevel::Low
        } else if r == 2 {
            ConfidenceLevel::Medium
        } else if r == 3 {
            ConfidenceLevel::High
        } else {
            ConfidenceLevel::VeryHigh
        }
    }

    /// The level's numeric value in tenths (0.1 is 1, 0.9 is 9).
    pub open spec fn tenths(self) -> int {
        2 * self.rank() + 1
    }

    /// The spelling used by `name` and accepted by `from_str`.
    pub open spec fn spec_name(self) -> Seq<char> {
        match self {
            ConfidenceLevel::VeryLow => "VeryLow"@,
            ConfidenceLevel::Low => "Low"@,
            ConfidenceLevel::Medium => "Medium"@,
            ConfidenceLevel::High => "High"@,
            ConfidenceLevel::VeryHigh => "VeryHigh"@,
        }
    }

    /// Position of the level in the order, as `rank` states it.
    pub fn ordinal(&self) -> (r: u8)
        ensures
            r as int == self.rank(),
    {
        match self {
            ConfidenceLevel::VeryLow => 0,
            ConfidenceLevel::Low => 1,
            ConfidenceLevel::Medium => 2,
            ConfidenceLevel::High => 3,
            ConfidenceLevel::VeryHigh => 4,
        }
    }

    /// All confidence levels, lowest first.
    pub fn all() -> (r: [ConfidenceLevel; 5])
        ensures
            r@ == seq![
                ConfidenceLevel::VeryLow,
                ConfidenceLevel::Low,
                ConfidenceLevel::Medium,
                ConfidenceLevel::High,
                ConfidenceLevel::VeryHigh,
            ],
    {
        [
            ConfidenceLevel::VeryLow,
            ConfidenceLevel::Low,
            ConfidenceLevel::Medium,
            ConfidenceLevel::High,
            ConfidenceLevel::VeryHigh,
        ]
    }

    /// The level's name.
    pub fn name(&self) -> (r: &'static str)
        ensures
            r@ == self.spec_name(),
    {
        match self {
            ConfidenceLevel::VeryLow => "VeryLow",
            ConfidenceLevel::Low => "Low",
            ConfidenceLevel::Medium => "Medium",
            ConfidenceLevel::High => "High",
            ConfidenceLevel::VeryHigh => "VeryHigh",
        }
    }

    /// Parses a level from its exact name; any other text gives `None`.
    pub fn from_str(s: &str) -> (r: Option<ConfidenceLevel>)
        ensures
            r == parse_confidence(s@),
    {
        if str_eq(s, "VeryLow") {
            Some(ConfidenceLevel::VeryLow)
        } else if str_eq(s, "Low") {
            Some(ConfidenceLevel::Low)
        } else if str_eq(s, "Medium") {
            Some(ConfidenceLevel::Medium)
        } else if str_eq(s, "High") {
            Some(ConfidenceLevel::High)
        } else if str_eq(s, "VeryHigh") {
            Some(ConfidenceLevel::VeryHigh)
        } else {
            None
        }
    }

    /// Whether this level is at least `threshold`.
    pub fn meets_threshold(&self, threshold: ConfidenceLevel) -> (r: bool)
        ensures
            r == (self.rank() >= threshold.rank()),
    {
        self.ordinal() >= threshold.ordinal()
    }

    /// The next level up, or `None` at the top.
    pub fn next_higher(&self) -> (r: Option<ConfidenceLevel>)
        ensures
            r == (if self.rank() == 4 {
                None::<ConfidenceLevel>
            } else {
                Some(ConfidenceLevel::from_rank(self.rank() + 1))
            }),
    {
        match self {
            ConfidenceLevel::VeryLow => Some(ConfidenceLevel::Low),
            ConfidenceLevel::Low => Some(ConfidenceLevel::Medium),
            ConfidenceLevel::Medium => Some(ConfidenceLevel::High),
            ConfidenceLevel::High => Some(ConfidenceLevel::VeryHigh),
            ConfidenceLevel::VeryHigh => None,
        }
    }

    /// The next level down, or `None` at the bottom.
    pub fn next_lower(&self) -> (r: Option<ConfidenceLevel>)
        ensures
            r == (if self.rank() == 0 {
                None::<ConfidenceLevel>
            } else {
                Some(ConfidenceLevel::from_rank(self.rank() - 1))
            }),
    {
        match self {
            ConfidenceLevel::VeryLow => None,
            ConfidenceLevel::Low => Some(ConfidenceLevel::VeryLow),
            ConfidenceLevel::Medium => Some(ConfidenceLevel::Low),
            ConfidenceLevel::High => Some(ConfidenceLevel::Medium),
            ConfidenceLevel::VeryHigh => Some(ConfidenceLevel::High),
        }
    }

    /// High or VeryHigh.
    pub fn is_high(&self) -> (r: bool)
        ensures
            r == (self.rank() >= 3),
    {
        matches!(self, ConfidenceLevel::High | ConfidenceLevel::VeryHigh)
    }

    /// VeryLow or Low.
    pub fn is_low(&self) -> (r: bool)
        ensures
            r == (self.rank() <= 1),
    {
        matches!(self, ConfidenceLevel::VeryLow | ConfidenceLevel::Low)
    }

    /// Exactly Medium.
    pub fn is_medium(&self) -> (r: bool)
        ensures
            r == (*self == ConfidenceLevel::Medium),
    {
        matches!(self, ConfidenceLevel::Medium)
    }
}

impl Default for ConfidenceLevel {
    /// Medium.
    fn default() -> (r: ConfidenceLevel)
        ensures
            r == ConfidenceLevel::Medium,
    {
        ConfidenceLevel::Medium
    }
}

/// Each level is what `from_rank` gives for its rank, and every rank in 0..5 names a level.
pub proof fn lemma_rank_roundtrip(c: ConfidenceLevel, r: int)
    ensures
        ConfidenceLevel::from_rank(c.rank()) == c,
        0 <= c.rank() < 5,
        0 <= r < 5 ==> ConfidenceLevel::from_rank(r).rank() == r,
{
}

/// Moving one level up and then one level down gives back the starting level,
/// and the other way round.
pub proof fn lemma_next_higher_lower_inverse(c: ConfidenceLevel)
    ensures
        c.rank() < 4 ==> ConfidenceLevel::from_rank(ConfidenceLevel::from_rank(c.rank() + 1).rank() - 1) == c,
        c.rank() > 0 ==> ConfidenceLevel::from_rank(ConfidenceLevel::from_rank(c.rank() - 1).rank() + 1) == c,
{
}


/// The level whose name is `s`, if any.
pub open spec fn parse_confidence(s: Seq<char>) -> Option<ConfidenceLevel> {
    if s == "VeryLow"@ {
        Some(ConfidenceLevel::VeryLow)
    } else if s == "Low"@ {
        Some(ConfidenceLevel::Low)
    } else if s == "Medium"@ {
        Some(ConfidenceLevel::Medium)
    } else if s == "High"@ {
        Some(ConfidenceLevel::High)
    } else if s == "VeryHigh"@ {
        Some(ConfidenceLevel::VeryHigh)
    } else {
        None
    }
}


/// How many of the levels sit at the given rank.
pub open spec fn count_at_rank(s: Seq<ConfidenceLevel>, r: int) -> nat
    decreases s.len(),
{
    if s.len() == 0 {
        0
    } else {
        count_at_rank(s.drop_last(), r) + if s.last().rank() == r {
            1nat
        } else {
            0nat
        }
    }
}

proof fn lemma_count_at_rank_bound(s: Seq<ConfidenceLevel>, r: int)
    ensures
        count_at_rank(s, r) <= s.len(),
    decreases s.len(),
{
    if s.len() > 0 {
        lemma_count_at_rank_bound(s.drop_last(), r);
    }
}

impl ConfidenceLevel {
    /// How many of the levels are VeryLow, Low, Medium, High and VeryHigh.
    pub fn distribution(levels: &[ConfidenceLevel]) -> (r: [usize; 5])
        ensures
            forall|k: int| 0 <= k < 5 ==> #[trigger] r@[k] == count_at_rank(levels@, k),
    {
        let mut d: [usize; 5] = [0, 0, 0, 0, 0];
        let mut i: usize = 0;
        while i < levels.len()
            invariant
                i <= levels@.len(),
                d@.len() == 5,
                forall|k: int| 0 <= k < 5 ==> #[trigger] d@[k] == count_at_rank(levels@.take(i as int), k),
            decreases levels.len() - i,
        {
            proof {
                assert(levels@.take(i + 1).drop_last() =~= levels@.take(i as int));
                assert forall|k: int| 0 <= k < 5 implies count_at_rank(levels@.take(i as int), k) <= i by {
                    lemma_count_at_rank_bound(levels@.take(i as int), k);
                }
            }
            let idx = levels[i].ordinal() as usize;
            d[idx] = d[idx] + 1;
            i = i + 1;
        }
        assert(levels@.take(levels@.len() as int) =~= levels@);
        d
    }

    /// The level with the largest count in a distribution by rank, the higher level on
    /// ties.
    pub fn dominant_in(distribution: &[usize; 5]) -> (r: ConfidenceLevel)
        ensures
            crate::item_types::is_last_max(distribution@, r.rank()),
    {
        let mut best: usize = 0;
        let mut k: usize = 1;
        while k < 5
            invariant
                1 <= k <= 5,
                best < k,
                distribution@.len() == 5,
                forall|j: int| 0 <= j < k ==> distribution@[j] <= distribution@[best as int],
                forall|j: int| best < j < k ==> distribution@[j] < distribution@[best as int],
            decreases 5 - k,
        {
            if distribution[k] >= distribution[best] {
                best = k;
            }
            k = k + 1;
        }
        match best {
            0 => ConfidenceLevel::VeryLow,
            1 => ConfidenceLevel::Low,
            2 => ConfidenceLevel::Medium,
            3 => ConfidenceLevel::High,
            _ => ConfidenceLevel::VeryHigh,
        }
    }
}

} // verus!
