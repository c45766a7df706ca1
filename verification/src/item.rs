//! Semantic items: the units of knowledge the memory holds.

use vstd::prelude::*;
use vstd::string::StringExecFns;
use crate::clock::now_millis;
use crate::confidence::ConfidenceLevel;
use crate::item_types::{kind_name, SemanticItemType};
use crate::json::JsonValue;
use crate::meta::{meta_copy, meta_drop_key, meta_find_last, meta_get, meta_insert, meta_remove, meta_view, Metadata};
use crate::json::JsonData;
use crate::seqs::{lemma_filter_step, lemma_take_full};
use crate::text::{chars_eq, chars_of, has_substring, lowercase, owned, str_contains, str_eq, to_lowercase};

verus! {

/// Milliseconds in a day.
pub const MILLIS_PER_DAY: i64 = 86_400_000;

/// A unit of knowledge: a concept, fact, rule or category, with tags, a confidence
/// level and metadata.
#[derive(Debug)]
pub struct SemanticItem {
    /// Unique identifier of the item.
    pub id: String,
    /// The kind of knowledge the item holds.
    pub item_type: SemanticItemType,
    /// Category label; a new item takes its type's name.
    pub category: String,
    /// The item's content.
    pub content: JsonValue,
    /// Tags, in the order they were added.
    pub tags: Vec<String>,
    /// How sure the memory is of the item.
    pub confidence: ConfidenceLevel,
    /// Creation time, milliseconds since the Unix epoch (UTC).
    pub created_at: i64,
    /// Last update time, milliseconds since the Unix epoch (UTC).
    pub updated_at: i64,
    /// Metadata entries; the last entry of a key holds its value.
    pub metadata: Metadata,
}

/// The characters of each string, in order.
pub open spec fn strings_view(s: Seq<String>) -> Seq<Seq<char>> {
    s.map_values(|t: String| t@)
}

/// `x` first occurs in `s` at `i`.
pub open spec fn first_at(s: Seq<Seq<char>>, x: Seq<char>, i: int) -> bool {
    0 <= i < s.len() && s[i] == x && forall|j: int| 0 <= j < i ==> s[j] != x
}

/// Integer division rounded toward zero, as machine division does.
pub open spec fn div_toward_zero(a: int, b: int) -> int
    recommends
        b > 0,
{
    if a >= 0 {
        a / b
    } else {
        -((-a) / b)
    }
}

/// The time `t` lies after `now` minus `days` days.
pub open spec fn within_days(t: i64, days: i64, now: i64) -> bool {
    t > now - days * MILLIS_PER_DAY
}

/// Whole days from `t` to `now`, rounded toward zero.
pub open spec fn days_from(t: i64, now: i64) -> int {
    div_toward_zero(now - t, MILLIS_PER_DAY as int)
}

/// The string's position in `v`, from a search over characters.
pub fn find_string(v: &Vec<String>, x: &str) -> (r: Option<usize>)
    ensures
        match r {
            Some(i) => first_at(strings_view(v@), x@, i as int),
            None => !strings_view(v@).contains(x@),
        },
{
    let k = chars_of(x);
    let mut i: usize = 0;
    while i < v.len()
        invariant
            i <= v@.len(),
            k@ == x@,
            forall|j: int| 0 <= j < i ==> (#[trigger] v@[j])@ != x@,
        decreases v.len() - i,
    {
        let c = chars_of(v[i].as_str());
        if chars_eq(&c, &k) {
            return Some(i);
        }
        i = i + 1;
    }
    assert forall|j: int| 0 <= j < strings_view(v@).len() implies strings_view(v@)[j] != x@ by {
        assert(strings_view(v@)[j] == v@[j]@);
    }
    None
}

/// Whether `v` holds a string equal to `x`.
pub fn contains_string(v: &Vec<String>, x: &str) -> (r: bool)
    ensures
        r == strings_view(v@).contains(x@),
{
    match find_string(v, x) {
        Some(i) => {
            assert(strings_view(v@)[i as int] == x@);
            true
        },
        None => false,
    }
}

/// A copy of the strings.
pub fn copy_strings(v: &Vec<String>) -> (r: Vec<String>)
    ensures
        r@ == v@,
{
    let mut r: Vec<String> = Vec::new();
    let mut i: usize = 0;
    while i < v.len()
        invariant
            i <= v@.len(),
            r@ == v@.take(i as int),
        decreases v.len() - i,
    {
        r.push(v[i].clone());
        assert(r@ =~= v@.take(i + 1));
        i = i + 1;
    }
    assert(v@.take(v@.len() as int) =~= v@);
    r
}

impl SemanticItem {
    /// Everything but the tags and the update time is as in `other`.
    pub open spec fn same_but_tags(self, other: SemanticItem) -> bool {
        &&& self.id == other.id
        &&& self.item_type == other.item_type
        &&& self.category == other.category
        &&& self.content == other.content
        &&& self.confidence == other.confidence
        &&& self.created_at == other.created_at
        &&& self.metadata == other.metadata
    }

    /// Everything but the metadata and the update time is as in `other`.
    pub open spec fn same_but_metadata(self, other: SemanticItem) -> bool {
        &&& self.id == other.id
        &&& self.item_type == other.item_type
        &&& self.category == other.category
        &&& self.content == other.content
        &&& self.tags == other.tags
        &&& self.confidence == other.confidence
        &&& self.created_at == other.created_at
    }

    /// The tags, by their characters.
    pub open spec fn tag_view(self) -> Seq<Seq<char>> {
        strings_view(self.tags@)
    }

    /// The metadata, as a map.
    pub open spec fn meta(self) -> Map<Seq<char>, crate::json::JsonData> {
        meta_view(self.metadata@)
    }

    /// A new item of the given type and content: its category is the type's name, it
    /// has no tags or metadata, Medium confidence, and both timestamps are the
    /// current time.
    pub fn new(id: &str, item_type: SemanticItemType, content: JsonValue) -> (r: SemanticItem)
        ensures
            r.id@ == id@,
            r.item_type == item_type,
            r.category@ == kind_name(item_type),
            r.content == content,
            r.tags@.len() == 0,
            r.confidence == ConfidenceLevel::Medium,
            r.created_at == r.updated_at,
            r.metadata@.len() == 0,
    {
        let now = now_millis();
        SemanticItem::new_at(id, item_type, content, now)
    }

    /// As `new`, with `now` as both timestamps.
    pub fn new_at(id: &str, item_type: SemanticItemType, content: JsonValue, now: i64) -> (r: SemanticItem)
        ensures
            r.id@ == id@,
            r.item_type == item_type,
            r.category@ == kind_name(item_type),
            r.content == content,
            r.tags@.len() == 0,
            r.confidence == ConfidenceLevel::Medium,
            r.created_at == now,
            r.updated_at == now,
            r.metadata@.len() == 0,
    {
        SemanticItem {
            id: owned(id),
            item_type,
            category: item_type.to_string(),
            content,
            tags: Vec::new(),
            confidence: ConfidenceLevel::Medium,
            created_at: now,
            updated_at: now,
            metadata: Vec::new(),
        }
    }

    /// A deep copy of the item.
    pub fn copy(&self) -> (r: SemanticItem)
        ensures
            r.id == self.id,
            r.item_type == self.item_type,
            r.category == self.category,
            r.content@ == self.content@,
            r.tags@ == self.tags@,
            r.confidence == self.confidence,
            r.created_at == self.created_at,
            r.updated_at == self.updated_at,
            r.meta() == self.meta(),
    {
        SemanticItem {
            id: self.id.clone(),
            item_type: self.item_type,
            category: self.category.clone(),
            content: self.content.copy(),
            tags: copy_strings(&self.tags),
            confidence: self.confidence,
            created_at: self.created_at,
            updated_at: self.updated_at,
            metadata: meta_copy(&self.metadata),
        }
    }

    /// Adds a tag at the end.
    pub fn with_tag(self, tag: &str) -> (r: SemanticItem)
        ensures
            r.tag_view() == self.tag_view().push(tag@),
            r.same_but_tags(self),
            r.updated_at == self.updated_at,
    {
        let mut s = self;
        s.tags.push(owned(tag));
        proof {
            assert(strings_view(s.tags@) =~= strings_view(self.tags@).push(tag@));
        }
        s
    }

    /// Sets the confidence level.
    pub fn with_confidence(self, confidence: ConfidenceLevel) -> (r: SemanticItem)
        ensures
            r.confidence == confidence,
            r.id == self.id && r.item_type == self.item_type && r.category == self.category,
            r.content == self.content && r.tags == self.tags && r.metadata == self.metadata,
            r.created_at == self.created_at && r.updated_at == self.updated_at,
    {
        let mut s = self;
        s.confidence = confidence;
        s
    }

    /// Sets a metadata entry.
    pub fn with_metadata(self, key: &str, value: JsonValue) -> (r: SemanticItem)
        ensures
            r.meta() == self.meta().insert(key@, value@),
            r.same_but_metadata(self),
            r.updated_at == self.updated_at,
    {
        let mut s = self;
        meta_insert(&mut s.metadata, owned(key), value);
        s
    }

    /// Replaces the content and stamps the update time.
    pub fn update_content(&mut self, content: JsonValue)
        ensures
            final(self).content == content,
            final(self).id == old(self).id && final(self).item_type == old(self).item_type,
            final(self).category == old(self).category && final(self).tags == old(self).tags,
            final(self).confidence == old(self).confidence && final(self).metadata == old(self).metadata,
            final(self).created_at == old(self).created_at,
    {
        let now = now_millis();
        self.update_content_at(content, now)
    }

    /// As `update_content`, with `now` as the time stamped.
    pub fn update_content_at(&mut self, content: JsonValue, now: i64)
        ensures
            final(self).content == content,
            final(self).id == old(self).id && final(self).item_type == old(self).item_type,
            final(self).category == old(self).category && final(self).tags == old(self).tags,
            final(self).confidence == old(self).confidence && final(self).metadata == old(self).metadata,
            final(self).created_at == old(self).created_at,
            final(self).updated_at == now,
    {
        self.content = content;
        self.updated_at = now;
    }

    /// The item's id.
    pub fn id(&self) -> (r: &str)
        ensures
            r@ == self.id@,
    {
        self.id.as_str()
    }

    /// The item's type.
    pub fn item_type(&self) -> (r: &SemanticItemType)
        ensures
            *r == self.item_type,
    {
        &self.item_type
    }

    /// The item's category.
    pub fn category(&self) -> (r: &str)
        ensures
            r@ == self.category@,
    {
        self.category.as_str()
    }

    /// The item's content.
    pub fn content(&self) -> (r: &JsonValue)
        ensures
            *r == self.content,
    {
        &self.content
    }

    /// The item's confidence level.
    pub fn confidence(&self) -> (r: ConfidenceLevel)
        ensures
            r == self.confidence,
    {
        self.confidence
    }

    /// The creation time.
    pub fn created_at(&self) -> (r: i64)
        ensures
            r == self.created_at,
    {
        self.created_at
    }

    /// The last update time.
    pub fn updated_at(&self) -> (r: i64)
        ensures
            r == self.updated_at,
    {
        self.updated_at
    }

    /// Sets the confidence level and stamps the update time.
    pub fn set_confidence(&mut self, confidence: ConfidenceLevel)
        ensures
            final(self).confidence == confidence,
            final(self).id == old(self).id && final(self).item_type == old(self).item_type,
            final(self).category == old(self).category && final(self).tags == old(self).tags,
            final(self).content == old(self).content && final(self).metadata == old(self).metadata,
            final(self).created_at == old(self).created_at,
    {
        let now = now_millis();
        self.set_confidence_at(confidence, now)
    }

    /// As `set_confidence`, with `now` as the time stamped.
    pub fn set_confidence_at(&mut self, confidence: ConfidenceLevel, now: i64)
        ensures
            final(self).confidence == confidence,
            final(self).id == old(self).id && final(self).item_type == old(self).item_type,
            final(self).category == old(self).category && final(self).tags == old(self).tags,
            final(self).content == old(self).content && final(self).metadata == old(self).metadata,
            final(self).created_at == old(self).created_at,
            final(self).updated_at == now,
    {
        self.confidence = confidence;
        self.updated_at = now;
    }

    /// Sets the category and stamps the update time.
    pub fn set_category(&mut self, category: &str)
        ensures
            final(self).category@ == category@,
            final(self).id == old(self).id && final(self).item_type == old(self).item_type,
            final(self).confidence == old(self).confidence && final(self).tags == old(self).tags,
            final(self).content == old(self).content && final(self).metadata == old(self).metadata,
            final(self).created_at == old(self).created_at,
    {
        let now = now_millis();
        self.set_category_at(category, now)
    }

    /// As `set_category`, with `now` as the time stamped.
    pub fn set_category_at(&mut self, category: &str, now: i64)
        ensures
            final(self).category@ == category@,
            final(self).id == old(self).id && final(self).item_type == old(self).item_type,
            final(self).confidence == old(self).confidence && final(self).tags == old(self).tags,
            final(self).content == old(self).content && final(self).metadata == old(self).metadata,
            final(self).created_at == old(self).created_at,
            final(self).updated_at == now,
    {
        self.category = owned(category);
        self.updated_at = now;
    }

    /// High or VeryHigh confidence.
    pub fn has_high_confidence(&self) -> (r: bool)
        ensures
            r == (self.confidence.rank() >= 3),
    {
        self.confidence.is_high()
    }

    /// VeryLow or Low confidence.
    pub fn has_low_confidence(&self) -> (r: bool)
        ensures
            r == (self.confidence.rank() <= 1),
    {
        self.confidence.is_low()
    }

    /// Whether the item was created after `now` minus `days` days.
    pub fn is_recent_at(&self, days: i64, now: i64) -> (r: bool)
        ensures
            r == within_days(self.created_at, days, now),
    {
        let threshold: i128 = now as i128 - days as i128 * 86_400_000i128;
        (self.created_at as i128) > threshold
    }

    /// Whether the item was updated after `now` minus `days` days.
    pub fn is_recently_updated_at(&self, days: i64, now: i64) -> (r: bool)
        ensures
            r == within_days(self.updated_at, days, now),
    {
        let threshold: i128 = now as i128 - days as i128 * 86_400_000i128;
        (self.updated_at as i128) > threshold
    }

    /// Whole days from creation to `now`, rounded toward zero.
    pub fn age_in_days_at(&self, now: i64) -> (r: i64)
        ensures
            r == days_from(self.created_at, now),
    {
        days_between(self.created_at, now)
    }

    /// Whole days from the last update to `now`, rounded toward zero.
    pub fn days_since_update_at(&self, now: i64) -> (r: i64)
        ensures
            r == days_from(self.updated_at, now),
    {
        days_between(self.updated_at, now)
    }

    /// Whether the item was created within the last `days` days of the clock.
    pub fn is_recent(&self, days: i64) -> (r: bool)
        ensures
            exists|now: i64| r == #[trigger] within_days(self.created_at, days, now),
    {
        let now = now_millis();
        self.is_recent_at(days, now)
    }

    /// Whether the item was updated within the last `days` days of the clock.
    pub fn is_recently_updated(&self, days: i64) -> (r: bool)
        ensures
            exists|now: i64| r == #[trigger] within_days(self.updated_at, days, now),
    {
        let now = now_millis();
        self.is_recently_updated_at(days, now)
    }

    /// Whole days since creation by the clock.
    pub fn age_in_days(&self) -> (r: i64)
        ensures
            exists|now: i64| r == #[trigger] days_from(self.created_at, now),
    {
        let now = now_millis();
        self.age_in_days_at(now)
    }

    /// Whole days since the last update by the clock.
    pub fn days_since_update(&self) -> (r: i64)
        ensures
            exists|now: i64| r == #[trigger] days_from(self.updated_at, now),
    {
        let now = now_millis();
        self.days_since_update_at(now)
    }
}

/// Whole days from `from` to `to`, rounded toward zero.
fn days_between(from: i64, to: i64) -> (r: i64)
    ensures
        r == div_toward_zero(to - from, MILLIS_PER_DAY as int),
{
    let d: i128 = to as i128 - from as i128;
    if d >= 0 {
        let q: i128 = d / 86_400_000i128;
        assert(q <= d);
        q as i64
    } else {
        let q: i128 = (-d) / 86_400_000i128;
        assert(q <= -d);
        -(q as i64)
    }
}

/// The strings the references point to.
pub open spec fn derefs<T>(s: Seq<&T>) -> Seq<T> {
    Seq::new(s.len(), |i: int| *s[i])
}

/// Keeps the strings that contain `sub`.
pub open spec fn contains_pred(sub: Seq<char>) -> spec_fn(String) -> bool {
    |t: String| has_substring(t@, sub)
}

/// Keeps the strings whose lower-cased form contains the lower-cased `pattern`.
pub open spec fn pattern_pred(pattern: Seq<char>) -> spec_fn(String) -> bool {
    |t: String| has_substring(lowercase(t@), lowercase(pattern))
}

/// Keeps the strings that occur in `list`.
pub open spec fn in_list_pred(list: Seq<String>) -> spec_fn(String) -> bool {
    |t: String| strings_view(list).contains(t@)
}

/// Keeps the strings that do not occur in `list`.
pub open spec fn not_in_list_pred(list: Seq<String>) -> spec_fn(String) -> bool {
    |t: String| !strings_view(list).contains(t@)
}

/// Whether the lower-cased `t` contains the already lower-cased pattern `lp`.
fn matches_lowered(t: &String, lp: &Vec<char>) -> (r: bool)
    ensures
        r == has_substring(lowercase(t@), lp@),
{
    let lt = to_lowercase(t.as_str());
    let c = chars_of(lt.as_str());
    crate::text::contains_chars(&c, lp)
}

/// Whether the slice `list` holds a string equal to `x`.
fn slice_contains_string(list: &[String], x: &str) -> (r: bool)
    ensures
        r == strings_view(list@).contains(x@),
{
    let k = chars_of(x);
    let mut i: usize = 0;
    while i < list.len()
        invariant
            i <= list@.len(),
            k@ == x@,
            forall|j: int| 0 <= j < i ==> (#[trigger] list@[j])@ != x@,
        decreases list.len() - i,
    {
        let c = chars_of(list[i].as_str());
        if chars_eq(&c, &k) {
            assert(strings_view(list@)[i as int] == x@);
            return true;
        }
        i = i + 1;
    }
    assert forall|j: int| 0 <= j < strings_view(list@).len() implies strings_view(list@)[j] != x@ by {
        assert(strings_view(list@)[j] == list@[j]@);
    }
    false
}

impl SemanticItem {
    /// Appends the given tags and stamps the update time.
    pub fn add_tags(&mut self, tags: Vec<String>)
        ensures
            final(self).tags@ == old(self).tags@ + tags@,
            final(self).same_but_tags(*old(self)),
    {
        let now = now_millis();
        self.add_tags_at(tags, now)
    }

    /// As `add_tags`, with `now` as the time stamped.
    pub fn add_tags_at(&mut self, tags: Vec<String>, now: i64)
        ensures
            final(self).tags@ == old(self).tags@ + tags@,
            final(self).same_but_tags(*old(self)),
            final(self).updated_at == now,
    {
        let mut i: usize = 0;
        let ghost start = self.tags@;
        let mut tags = tags;
        let mut incoming: Vec<String> = Vec::new();
        std::mem::swap(&mut incoming, &mut tags);
        let ghost all = incoming@;
        while i < incoming.len()
            invariant
                i <= incoming@.len(),
                incoming@ == all,
                self.tags@ == start + all.take(i as int),
                self.same_but_tags(*old(self)),
            decreases incoming.len() - i,
        {
            self.tags.push(incoming[i].clone());
            assert(self.tags@ =~= start + all.take(i + 1));
            i = i + 1;
        }
        proof {
            lemma_take_full(all);
        }
        self.updated_at = now;
    }

    /// Removes the first occurrence of `tag`; true when there was one.
    pub fn remove_tag(&mut self, tag: &str) -> (r: bool)
        ensures
            r == old(self).tag_view().contains(tag@),
            r ==> exists|i: int| #[trigger] first_at(old(self).tag_view(), tag@, i) && final(self).tags@ == old(self).tags@.remove(i),
            !r ==> final(self).tags == old(self).tags && final(self).updated_at == old(self).updated_at,
            final(self).same_but_tags(*old(self)),
    {
        let now = now_millis();
        self.remove_tag_at(tag, now)
    }

    /// As `remove_tag`, with `now` as the time stamped.
    pub fn remove_tag_at(&mut self, tag: &str, now: i64) -> (r: bool)
        ensures
            r == old(self).tag_view().contains(tag@),
            r ==> exists|i: int| #[trigger] first_at(old(self).tag_view(), tag@, i) && final(self).tags@ == old(self).tags@.remove(i),
            !r ==> final(self).tags == old(self).tags && final(self).updated_at == old(self).updated_at,
            final(self).same_but_tags(*old(self)),
            r ==> final(self).updated_at == now,
    {
        match find_string(&self.tags, tag) {
            Some(pos) => {
                self.tags.remove(pos);
                self.updated_at = now;
                assert(old(self).tag_view()[pos as int] == tag@);
                true
            },
            None => false,
        }
    }

    /// Whether the item carries `tag`.
    pub fn has_tag(&self, tag: &str) -> (r: bool)
        ensures
            r == self.tag_view().contains(tag@),
    {
        contains_string(&self.tags, tag)
    }

    /// The tags.
    pub fn tags(&self) -> (r: &[String])
        ensures
            r@ == self.tags@,
    {
        self.tags.as_slice()
    }

    /// Removes every tag and stamps the update time.
    pub fn clear_tags(&mut self)
        ensures
            final(self).tags@.len() == 0,
            final(self).same_but_tags(*old(self)),
    {
        let now = now_millis();
        self.clear_tags_at(now)
    }

    /// As `clear_tags`, with `now` as the time stamped.
    pub fn clear_tags_at(&mut self, now: i64)
        ensures
            final(self).tags@.len() == 0,
            final(self).same_but_tags(*old(self)),
            final(self).updated_at == now,
    {
        self.tags.clear();
        self.updated_at = now;
    }

    /// Replaces the tags and stamps the update time.
    pub fn replace_tags(&mut self, tags: Vec<String>)
        ensures
            final(self).tags == tags,
            final(self).same_but_tags(*old(self)),
    {
        let now = now_millis();
        self.replace_tags_at(tags, now)
    }

    /// As `replace_tags`, with `now` as the time stamped.
    pub fn replace_tags_at(&mut self, tags: Vec<String>, now: i64)
        ensures
            final(self).tags == tags,
            final(self).same_but_tags(*old(self)),
            final(self).updated_at == now,
    {
        self.tags = tags;
        self.updated_at = now;
    }

    /// The number of tags.
    pub fn tag_count(&self) -> (r: usize)
        ensures
            r == self.tags@.len(),
    {
        self.tags.len()
    }

    /// Whether there is at least one tag.
    pub fn has_tags(&self) -> (r: bool)
        ensures
            r == (self.tags@.len() > 0),
    {
        self.tags.len() > 0
    }

    /// The tags containing `substring`, in order.
    pub fn find_tags_containing(&self, substring: &str) -> (r: Vec<&String>)
        ensures
            derefs(r@) == self.tags@.filter(contains_pred(substring@)),
    {
        let sub = chars_of(substring);
        let mut r: Vec<&String> = Vec::new();
        let mut i: usize = 0;
        while i < self.tags.len()
            invariant
                i <= self.tags@.len(),
                sub@ == substring@,
                derefs(r@) == self.tags@.take(i as int).filter(contains_pred(substring@)),
            decreases self.tags.len() - i,
        {
            proof {
                lemma_filter_step(self.tags@, i as int, contains_pred(substring@));
            }
            let c = chars_of(self.tags[i].as_str());
            if crate::text::contains_chars(&c, &sub) {
                let ghost before = derefs(r@);
                r.push(&self.tags[i]);
                assert(derefs(r@) =~= before.push(self.tags@[i as int]));
            }
            i = i + 1;
        }
        proof {
            lemma_take_full(self.tags@);
        }
        r
    }

    /// Adds `tag` unless it is already there; true when it was added.
    pub fn add_tag_if_not_exists(&mut self, tag: &str) -> (r: bool)
        ensures
            r == !old(self).tag_view().contains(tag@),
            r ==> final(self).tag_view() == old(self).tag_view().push(tag@),
            !r ==> final(self).tags == old(self).tags && final(self).updated_at == old(self).updated_at,
            final(self).same_but_tags(*old(self)),
    {
        let now = now_millis();
        self.add_tag_if_not_exists_at(tag, now)
    }

    /// As `add_tag_if_not_exists`, with `now` as the time stamped.
    pub fn add_tag_if_not_exists_at(&mut self, tag: &str, now: i64) -> (r: bool)
        ensures
            r == !old(self).tag_view().contains(tag@),
            r ==> final(self).tag_view() == old(self).tag_view().push(tag@),
            !r ==> final(self).tags == old(self).tags && final(self).updated_at == old(self).updated_at,
            final(self).same_but_tags(*old(self)),
            r ==> final(self).updated_at == now,
    {
        if !self.has_tag(tag) {
            self.tags.push(owned(tag));
            self.updated_at = now;
            assert(self.tag_view() =~= old(self).tag_view().push(tag@));
            true
        } else {
            false
        }
    }

    /// Removes the first `tag` if present, else appends it; true when it was added.
    pub fn toggle_tag(&mut self, tag: &str) -> (r: bool)
        ensures
            r == !old(self).tag_view().contains(tag@),
            r ==> final(self).tag_view() == old(self).tag_view().push(tag@),
            !r ==> exists|i: int| #[trigger] first_at(old(self).tag_view(), tag@, i) && final(self).tags@ == old(self).tags@.remove(i),
            final(self).same_but_tags(*old(self)),
    {
        let now = now_millis();
        self.toggle_tag_at(tag, now)
    }

    /// As `toggle_tag`, with `now` as the time stamped.
    pub fn toggle_tag_at(&mut self, tag: &str, now: i64) -> (r: bool)
        ensures
            r == !old(self).tag_view().contains(tag@),
            r ==> final(self).tag_view() == old(self).tag_view().push(tag@),
            !r ==> exists|i: int| #[trigger] first_at(old(self).tag_view(), tag@, i) && final(self).tags@ == old(self).tags@.remove(i),
            final(self).same_but_tags(*old(self)),
            final(self).updated_at == now,
    {
        if self.has_tag(tag) {
            self.remove_tag_at(tag, now);
            false
        } else {
            self.tags.push(owned(tag));
            self.updated_at = now;
            assert(self.tag_view() =~= old(self).tag_view().push(tag@));
            true
        }
    }

    /// The tags whose lower-cased form contains the lower-cased `pattern`, in order.
    pub fn get_tags_matching_pattern(&self, pattern: &str) -> (r: Vec<&String>)
        ensures
            derefs(r@) == self.tags@.filter(pattern_pred(pattern@)),
    {
        let lp_s = to_lowercase(pattern);
        let lp = chars_of(lp_s.as_str());
        let mut r: Vec<&String> = Vec::new();
        let mut i: usize = 0;
        while i < self.tags.len()
            invariant
                i <= self.tags@.len(),
                lp@ == lowercase(pattern@),
                derefs(r@) == self.tags@.take(i as int).filter(pattern_pred(pattern@)),
            decreases self.tags.len() - i,
        {
            proof {
                lemma_filter_step(self.tags@, i as int, pattern_pred(pattern@));
            }
            if matches_lowered(&self.tags[i], &lp) {
                let ghost before = derefs(r@);
                r.push(&self.tags[i]);
                assert(derefs(r@) =~= before.push(self.tags@[i as int]));
            }
            i = i + 1;
        }
        proof {
            lemma_take_full(self.tags@);
        }
        r
    }

    /// How many tags match `pattern` ignoring case.
    pub fn count_tags_matching_pattern(&self, pattern: &str) -> (r: usize)
        ensures
            r == self.tags@.filter(pattern_pred(pattern@)).len(),
    {
        self.get_tags_matching_pattern(pattern).len()
    }

    /// Removes every tag that occurs in `tags_to_remove`, keeping the others in order;
    /// the update time is stamped when something was removed.
    pub fn remove_multiple_tags(&mut self, tags_to_remove: &[String]) -> (r: usize)
        ensures
            final(self).tags@ == old(self).tags@.filter(not_in_list_pred(tags_to_remove@)),
            r == old(self).tags@.len() - final(self).tags@.len(),
            r == 0 ==> final(self).updated_at == old(self).updated_at,
            final(self).same_but_tags(*old(self)),
    {
        let now = now_millis();
        self.remove_multiple_tags_at(tags_to_remove, now)
    }

    /// As `remove_multiple_tags`, with `now` as the time stamped.
    pub fn remove_multiple_tags_at(&mut self, tags_to_remove: &[String], now: i64) -> (r: usize)
        ensures
            final(self).tags@ == old(self).tags@.filter(not_in_list_pred(tags_to_remove@)),
            r == old(self).tags@.len() - final(self).tags@.len(),
            r == 0 ==> final(self).updated_at == old(self).updated_at,
            final(self).same_but_tags(*old(self)),
            r > 0 ==> final(self).updated_at == now,
    {
        let initial_count = self.tags.len();
        let mut kept: Vec<String> = Vec::new();
        let mut i: usize = 0;
        let ghost orig = self.tags@;
        while i < self.tags.len()
            invariant
                i <= self.tags@.len(),
                self.tags@ == orig,
                kept@ == orig.take(i as int).filter(not_in_list_pred(tags_to_remove@)),
                kept@.len() <= i,
            decreases self.tags.len() - i,
        {
            proof {
                lemma_filter_step(orig, i as int, not_in_list_pred(tags_to_remove@));
            }
            if !slice_contains_string(tags_to_remove, self.tags[i].as_str()) {
                kept.push(self.tags[i].clone());
            }
            i = i + 1;
        }
        proof {
            lemma_take_full(orig);
        }
        self.tags = kept;
        let removed_count = initial_count - self.tags.len();
        if removed_count > 0 {
            self.updated_at = now;
        }
        removed_count
    }

    /// Whether every tag in `required_tags` is present.
    pub fn has_all_tags(&self, required_tags: &[String]) -> (r: bool)
        ensures
            r == forall|i: int| 0 <= i < required_tags@.len() ==> self.tag_view().contains((#[trigger] required_tags@[i])@),
    {
        let mut i: usize = 0;
        while i < required_tags.len()
            invariant
                i <= required_tags@.len(),
                forall|j: int| 0 <= j < i ==> self.tag_view().contains((#[trigger] required_tags@[j])@),
            decreases required_tags.len() - i,
        {
            if !self.has_tag(required_tags[i].as_str()) {
                return false;
            }
            i = i + 1;
        }
        true
    }

    /// Whether some tag in `candidate_tags` is present.
    pub fn has_any_tags(&self, candidate_tags: &[String]) -> (r: bool)
        ensures
            r == exists|i: int| 0 <= i < candidate_tags@.len() && self.tag_view().contains((#[trigger] candidate_tags@[i])@),
    {
        let mut i: usize = 0;
        while i < candidate_tags.len()
            invariant
                i <= candidate_tags@.len(),
                forall|j: int| 0 <= j < i ==> !self.tag_view().contains((#[trigger] candidate_tags@[j])@),
            decreases candidate_tags.len() - i,
        {
            if self.has_tag(candidate_tags[i].as_str()) {
                return true;
            }
            i = i + 1;
        }
        false
    }

    /// The tags that do not occur in `exclude_tags`, in order.
    pub fn get_tags_excluding(&self, exclude_tags: &[String]) -> (r: Vec<&String>)
        ensures
            derefs(r@) == self.tags@.filter(not_in_list_pred(exclude_tags@)),
    {
        let mut r: Vec<&String> = Vec::new();
        let mut i: usize = 0;
        while i < self.tags.len()
            invariant
                i <= self.tags@.len(),
                derefs(r@) == self.tags@.take(i as int).filter(not_in_list_pred(exclude_tags@)),
            decreases self.tags.len() - i,
        {
            proof {
                lemma_filter_step(self.tags@, i as int, not_in_list_pred(exclude_tags@));
            }
            if !slice_contains_string(exclude_tags, self.tags[i].as_str()) {
                let ghost before = derefs(r@);
                r.push(&self.tags[i]);
                assert(derefs(r@) =~= before.push(self.tags@[i as int]));
            }
            i = i + 1;
        }
        proof {
            lemma_take_full(self.tags@);
        }
        r
    }

    /// The tags that also occur in `other_tags`, in order.
    pub fn get_tag_intersection(&self, other_tags: &[String]) -> (r: Vec<&String>)
        ensures
            derefs(r@) == self.tags@.filter(in_list_pred(other_tags@)),
    {
        let mut r: Vec<&String> = Vec::new();
        let mut i: usize = 0;
        while i < self.tags.len()
            invariant
                i <= self.tags@.len(),
                derefs(r@) == self.tags@.take(i as int).filter(in_list_pred(other_tags@)),
            decreases self.tags.len() - i,
        {
            proof {
                lemma_filter_step(self.tags@, i as int, in_list_pred(other_tags@));
            }
            if slice_contains_string(other_tags, self.tags[i].as_str()) {
                let ghost before = derefs(r@);
                r.push(&self.tags[i]);
                assert(derefs(r@) =~= before.push(self.tags@[i as int]));
            }
            i = i + 1;
        }
        proof {
            lemma_take_full(self.tags@);
        }
        r
    }

    /// The counts behind the tag similarity of two items: how many of this item's
    /// tags occur in the other's, and that count's complement in the union
    /// (`self` tags + `other` tags - shared). The similarity is their ratio: 1 when
    /// both have no tags, 0 when exactly one has none.
    pub fn tag_similarity_counts(&self, other: &SemanticItem) -> (r: (usize, usize))
        requires
            self.tags@.len() + other.tags@.len() <= usize::MAX,
        ensures
            r.0 == self.tags@.filter(in_list_pred(other.tags@)).len(),
            r.1 == self.tags@.len() + other.tags@.len() - r.0,
    {
        let shared = self.get_tag_intersection(other.tags.as_slice()).len();
        proof {
            crate::seqs::lemma_filter_members(self.tags@, in_list_pred(other.tags@));
        }
        (shared, self.tags.len() + other.tags.len() - shared)
    }
}

/// Keeps the entries whose key contains `sub`.
pub open spec fn key_contains_pred(sub: Seq<char>) -> spec_fn((String, JsonValue)) -> bool {
    |e: (String, JsonValue)| has_substring(e.0@, sub)
}

/// Keeps the entries whose lower-cased key contains the lower-cased `pattern`.
pub open spec fn key_pattern_pred(pattern: Seq<char>) -> spec_fn((String, JsonValue)) -> bool {
    |e: (String, JsonValue)| has_substring(lowercase(e.0@), lowercase(pattern))
}

/// The JSON kind named by `kind` ("string", "number", "boolean", "array", "object",
/// "null") describes `v`; any other name describes nothing.
pub open spec fn is_kind(v: JsonData, kind: Seq<char>) -> bool {
    if kind == "string"@ {
        v is Str
    } else if kind == "number"@ {
        v is Number
    } else if kind == "boolean"@ {
        v is Bool
    } else if kind == "array"@ {
        v is Array
    } else if kind == "object"@ {
        v is Object
    } else if kind == "null"@ {
        v is Null
    } else {
        false
    }
}

/// Keeps the entries whose value is of the kind named `kind`.
pub open spec fn kind_pred(kind: Seq<char>) -> spec_fn((String, JsonValue)) -> bool {
    |e: (String, JsonValue)| is_kind(e.1@, kind)
}

/// Whether `v` is of the JSON kind named `kind`.
fn value_is_kind(v: &JsonValue, kind: &str) -> (r: bool)
    ensures
        r == is_kind(v@, kind@),
{
    if str_eq(kind, "string") {
        v.is_string()
    } else if str_eq(kind, "number") {
        v.is_number()
    } else if str_eq(kind, "boolean") {
        v.is_boolean()
    } else if str_eq(kind, "array") {
        v.is_array()
    } else if str_eq(kind, "object") {
        v.is_object()
    } else if str_eq(kind, "null") {
        v.is_null()
    } else {
        false
    }
}

/// The keys of the entries joined by ", ".
pub open spec fn joined_keys(m: Seq<(String, JsonValue)>) -> Seq<char>
    decreases m.len(),
{
    if m.len() == 0 {
        Seq::empty()
    } else if m.len() == 1 {
        m[0].0@
    } else {
        joined_keys(m.drop_last()) + ", "@ + m.last().0@
    }
}

impl SemanticItem {
    /// Sets `key` to `value` and stamps the update time.
    pub fn update_metadata(&mut self, key: &str, value: JsonValue)
        ensures
            final(self).meta() == old(self).meta().insert(key@, value@),
            final(self).same_but_metadata(*old(self)),
    {
        let now = now_millis();
        self.update_metadata_at(key, value, now)
    }

    /// As `update_metadata`, with `now` as the time stamped.
    pub fn update_metadata_at(&mut self, key: &str, value: JsonValue, now: i64)
        ensures
            final(self).meta() == old(self).meta().insert(key@, value@),
            final(self).same_but_metadata(*old(self)),
            final(self).updated_at == now,
    {
        meta_insert(&mut self.metadata, owned(key), value);
        self.updated_at = now;
    }

    /// Removes `key`, giving back its value; the update time is stamped when it was present.
    pub fn remove_metadata(&mut self, key: &str) -> (r: Option<JsonValue>)
        ensures
            final(self).meta() == old(self).meta().remove(key@),
            match r {
                Some(v) => old(self).meta().contains_key(key@) && old(self).meta()[key@] == v@,
                None => !old(self).meta().contains_key(key@) && final(self).updated_at == old(
                    self,
                ).updated_at,
            },
            final(self).same_but_metadata(*old(self)),
    {
        let now = now_millis();
        self.remove_metadata_at(key, now)
    }

    /// As `remove_metadata`, with `now` as the time stamped.
    pub fn remove_metadata_at(&mut self, key: &str, now: i64) -> (r: Option<JsonValue>)
        ensures
            final(self).meta() == old(self).meta().remove(key@),
            match r {
                Some(v) => old(self).meta().contains_key(key@) && old(self).meta()[key@] == v@,
                None => !old(self).meta().contains_key(key@) && final(self).updated_at == old(
                    self,
                ).updated_at,
            },
            final(self).same_but_metadata(*old(self)),
            r is Some ==> final(self).updated_at == now,
    {
        let result = meta_remove(&mut self.metadata, key);
        if result.is_some() {
            self.updated_at = now;
        }
        result
    }

    /// The value under `key`, if present.
    pub fn get_metadata(&self, key: &str) -> (r: Option<&JsonValue>)
        ensures
            match r {
                Some(v) => self.meta().contains_key(key@) && self.meta()[key@] == v@,
                None => !self.meta().contains_key(key@),
            },
    {
        meta_get(&self.metadata, key)
    }

    /// The metadata entries.
    pub fn metadata(&self) -> (r: &Metadata)
        ensures
            r == &self.metadata,
    {
        &self.metadata
    }

    /// Removes all metadata and stamps the update time.
    pub fn clear_metadata(&mut self)
        ensures
            final(self).metadata@.len() == 0,
            final(self).meta() == Map::<Seq<char>, JsonData>::empty(),
            final(self).same_but_metadata(*old(self)),
    {
        let now = now_millis();
        self.clear_metadata_at(now)
    }

    /// As `clear_metadata`, with `now` as the time stamped.
    pub fn clear_metadata_at(&mut self, now: i64)
        ensures
            final(self).metadata@.len() == 0,
            final(self).meta() == Map::<Seq<char>, JsonData>::empty(),
            final(self).same_but_metadata(*old(self)),
            final(self).updated_at == now,
    {
        self.metadata.clear();
        self.updated_at = now;
    }

    /// Replaces all metadata and stamps the update time.
    pub fn replace_metadata(&mut self, metadata: Metadata)
        ensures
            final(self).metadata == metadata,
            final(self).same_but_metadata(*old(self)),
    {
        let now = now_millis();
        self.replace_metadata_at(metadata, now)
    }

    /// As `replace_metadata`, with `now` as the time stamped.
    pub fn replace_metadata_at(&mut self, metadata: Metadata, now: i64)
        ensures
            final(self).metadata == metadata,
            final(self).same_but_metadata(*old(self)),
            final(self).updated_at == now,
    {
        self.metadata = metadata;
        self.updated_at = now;
    }

    /// Sets every entry of `other_metadata`, in order (later entries win), and stamps
    /// the update time.
    pub fn merge_metadata(&mut self, other_metadata: &Metadata)
        ensures
            final(self).meta() == old(self).meta().union_prefer_right(meta_view(other_metadata@)),
            final(self).same_but_metadata(*old(self)),
    {
        let now = now_millis();
        self.merge_metadata_at(other_metadata, now)
    }

    /// As `merge_metadata`, with `now` as the time stamped.
    pub fn merge_metadata_at(&mut self, other_metadata: &Metadata, now: i64)
        ensures
            final(self).meta() == old(self).meta().union_prefer_right(meta_view(other_metadata@)),
            final(self).same_but_metadata(*old(self)),
            final(self).updated_at == now,
    {
        let mut i: usize = 0;
        while i < other_metadata.len()
            invariant
                i <= other_metadata@.len(),
                self.meta() == old(self).meta().union_prefer_right(meta_view(other_metadata@.take(i as int))),
                self.same_but_metadata(*old(self)),
            decreases other_metadata.len() - i,
        {
            meta_insert(&mut self.metadata, other_metadata[i].0.clone(), other_metadata[i].1.copy());
            proof {
                let t = other_metadata@.take(i + 1);
                assert(t.drop_last() =~= other_metadata@.take(i as int));
                assert(self.meta() =~= old(self).meta().union_prefer_right(meta_view(t)));
            }
            i = i + 1;
        }
        proof {
            lemma_take_full(other_metadata@);
        }
        self.updated_at = now;
    }

    /// Number of metadata entries.
    pub fn metadata_count(&self) -> (r: usize)
        ensures
            r == self.metadata@.len(),
    {
        self.metadata.len()
    }

    /// Whether there is at least one metadata entry.
    pub fn has_metadata(&self) -> (r: bool)
        ensures
            r == (self.metadata@.len() > 0),
    {
        self.metadata.len() > 0
    }

    /// Whether `key` has a value.
    pub fn has_metadata_key(&self, key: &str) -> (r: bool)
        ensures
            r == self.meta().contains_key(key@),
    {
        meta_find_last(&self.metadata, key).is_some()
    }

    /// The keys of the entries, in order.
    pub fn metadata_keys(&self) -> (r: Vec<&String>)
        ensures
            r@.len() == self.metadata@.len(),
            forall|i: int| 0 <= i < r@.len() ==> *(#[trigger] r@[i]) == self.metadata@[i].0,
    {
        let mut r: Vec<&String> = Vec::new();
        let mut i: usize = 0;
        while i < self.metadata.len()
            invariant
                i <= self.metadata@.len(),
                r@.len() == i,
                forall|j: int| 0 <= j < i ==> *(#[trigger] r@[j]) == self.metadata@[j].0,
            decreases self.metadata.len() - i,
        {
            r.push(&self.metadata[i].0);
            i = i + 1;
        }
        r
    }

    /// The values of the entries, in order.
    pub fn metadata_values(&self) -> (r: Vec<&JsonValue>)
        ensures
            r@.len() == self.metadata@.len(),
            forall|i: int| 0 <= i < r@.len() ==> *(#[trigger] r@[i]) == self.metadata@[i].1,
    {
        let mut r: Vec<&JsonValue> = Vec::new();
        let mut i: usize = 0;
        while i < self.metadata.len()
            invariant
                i <= self.metadata@.len(),
                r@.len() == i,
                forall|j: int| 0 <= j < i ==> *(#[trigger] r@[j]) == self.metadata@[j].1,
            decreases self.metadata.len() - i,
        {
            r.push(&self.metadata[i].1);
            i = i + 1;
        }
        r
    }

    /// The entries whose key contains `substring`, in order.
    pub fn find_metadata_by_key_substring(&self, substring: &str) -> (r: Vec<&(String, JsonValue)>)
        ensures
            derefs(r@) == self.metadata@.filter(key_contains_pred(substring@)),
    {
        let sub = chars_of(substring);
        let mut r: Vec<&(String, JsonValue)> = Vec::new();
        let mut i: usize = 0;
        while i < self.metadata.len()
            invariant
                i <= self.metadata@.len(),
                sub@ == substring@,
                derefs(r@) == self.metadata@.take(i as int).filter(key_contains_pred(substring@)),
            decreases self.metadata.len() - i,
        {
            proof {
                lemma_filter_step(self.metadata@, i as int, key_contains_pred(substring@));
            }
            let c = chars_of(self.metadata[i].0.as_str());
            if crate::text::contains_chars(&c, &sub) {
                let ghost before = derefs(r@);
                r.push(&self.metadata[i]);
                assert(derefs(r@) =~= before.push(self.metadata@[i as int]));
            }
            i = i + 1;
        }
        proof {
            lemma_take_full(self.metadata@);
        }
        r
    }

    /// Sets every entry of `updates`, in order, and stamps the update time.
    pub fn update_multiple_metadata(&mut self, updates: Metadata)
        ensures
            final(self).meta() == old(self).meta().union_prefer_right(meta_view(updates@)),
            final(self).same_but_metadata(*old(self)),
    {
        let now = now_millis();
        self.update_multiple_metadata_at(updates, now)
    }

    /// As `update_multiple_metadata`, with `now` as the time stamped.
    pub fn update_multiple_metadata_at(&mut self, updates: Metadata, now: i64)
        ensures
            final(self).meta() == old(self).meta().union_prefer_right(meta_view(updates@)),
            final(self).same_but_metadata(*old(self)),
            final(self).updated_at == now,
    {
        self.merge_metadata_at(&updates, now);
    }

    /// Removes each key of `keys` that has a value, giving back the removed entries in
    /// the order of `keys`; the update time is stamped when something was removed.
    pub fn remove_multiple_metadata(&mut self, keys: &[String]) -> (r: Metadata)
        ensures
            forall|k: Seq<char>| #[trigger] final(self).meta().contains_key(k) <==> (old(self).meta().contains_key(k)
                && !strings_view(keys@).contains(k)),
            forall|k: Seq<char>| #[trigger] final(self).meta().contains_key(k) ==> final(self).meta()[k] == old(self).meta()[k],
            forall|k: Seq<char>| #[trigger] meta_view(r@).contains_key(k) <==> (old(self).meta().contains_key(k)
                && strings_view(keys@).contains(k)),
            forall|k: Seq<char>| #[trigger] meta_view(r@).contains_key(k) ==> meta_view(r@)[k] == old(self).meta()[k],
            r@.len() == 0 ==> final(self).updated_at == old(self).updated_at,
            final(self).same_but_metadata(*old(self)),
    {
        let now = now_millis();
        self.remove_multiple_metadata_at(keys, now)
    }

    /// As `remove_multiple_metadata`, with `now` as the time stamped.
    pub fn remove_multiple_metadata_at(&mut self, keys: &[String], now: i64) -> (r: Metadata)
        ensures
            forall|k: Seq<char>| #[trigger] final(self).meta().contains_key(k) <==> (old(self).meta().contains_key(k)
                && !strings_view(keys@).contains(k)),
            forall|k: Seq<char>| #[trigger] final(self).meta().contains_key(k) ==> final(self).meta()[k] == old(self).meta()[k],
            forall|k: Seq<char>| #[trigger] meta_view(r@).contains_key(k) <==> (old(self).meta().contains_key(k)
                && strings_view(keys@).contains(k)),
            forall|k: Seq<char>| #[trigger] meta_view(r@).contains_key(k) ==> meta_view(r@)[k] == old(self).meta()[k],
            r@.len() == 0 ==> final(self).updated_at == old(self).updated_at,
            final(self).same_but_metadata(*old(self)),
            r@.len() > 0 ==> final(self).updated_at == now,
    {
        let mut removed: Metadata = Vec::new();
        let mut i: usize = 0;
        while i < keys.len()
            invariant
                i <= keys@.len(),
                self.same_but_metadata(*old(self)),
                self.updated_at == old(self).updated_at,
                forall|k: Seq<char>| #[trigger] self.meta().contains_key(k) <==> (old(self).meta().contains_key(k)
                    && !strings_view(keys@.take(i as int)).contains(k)),
                forall|k: Seq<char>| #[trigger] self.meta().contains_key(k) ==> self.meta()[k] == old(self).meta()[k],
                forall|k: Seq<char>| #[trigger] meta_view(removed@).contains_key(k) <==> (old(self).meta().contains_key(k)
                    && strings_view(keys@.take(i as int)).contains(k)),
                forall|k: Seq<char>| #[trigger] meta_view(removed@).contains_key(k) ==> meta_view(removed@)[k] == old(self).meta()[k],
            decreases keys.len() - i,
        {
            let ghost prev_meta = self.meta();
            let ghost prev_removed = meta_view(removed@);
            let key = keys[i].as_str();
            let got = meta_remove(&mut self.metadata, key);
            proof {
                let sv0 = strings_view(keys@.take(i as int));
                let sv1 = strings_view(keys@.take(i + 1));
                assert(sv1 =~= sv0.push(keys@[i as int]@));
                assert forall|k: Seq<char>| #[trigger] sv1.contains(k) <==> (sv0.contains(k) || k == keys@[i as int]@) by {
                    if sv1.contains(k) {
                        let j = choose|j: int| 0 <= j < sv1.len() && sv1[j] == k;
                        if j < sv0.len() {
                            assert(sv0[j] == k);
                        }
                    }
                    if sv0.contains(k) {
                        let j = choose|j: int| 0 <= j < sv0.len() && sv0[j] == k;
                        assert(sv1[j] == k);
                    }
                    if k == keys@[i as int]@ {
                        assert(sv1[sv0.len() as int] == k);
                    }
                }
            }
            match got {
                Some(v) => {
                    let ghost before = removed@;
                    removed.push((keys[i].clone(), v));
                    assert(removed@.drop_last() =~= before);
                    assert(meta_view(removed@) == prev_removed.insert(keys@[i as int]@, v@));
                },
                None => {},
            }
            i = i + 1;
        }
        proof {
            lemma_take_full(keys@);
            assert(strings_view(keys@.take(i as int)) == strings_view(keys@));
        }
        let ghost meta_after = self.meta();
        if removed.len() > 0 {
            self.updated_at = now;
        }
        assert(self.meta() == meta_after);
        removed
    }

    /// The entries whose key matches `pattern` ignoring case, in order.
    pub fn get_metadata_matching_pattern(&self, pattern: &str) -> (r: Vec<&(String, JsonValue)>)
        ensures
            derefs(r@) == self.metadata@.filter(key_pattern_pred(pattern@)),
    {
        let lp_s = to_lowercase(pattern);
        let lp = chars_of(lp_s.as_str());
        let mut r: Vec<&(String, JsonValue)> = Vec::new();
        let mut i: usize = 0;
        while i < self.metadata.len()
            invariant
                i <= self.metadata@.len(),
                lp@ == lowercase(pattern@),
                derefs(r@) == self.metadata@.take(i as int).filter(key_pattern_pred(pattern@)),
            decreases self.metadata.len() - i,
        {
            proof {
                lemma_filter_step(self.metadata@, i as int, key_pattern_pred(pattern@));
            }
            if matches_lowered(&self.metadata[i].0, &lp) {
                let ghost before = derefs(r@);
                r.push(&self.metadata[i]);
                assert(derefs(r@) =~= before.push(self.metadata@[i as int]));
            }
            i = i + 1;
        }
        proof {
            lemma_take_full(self.metadata@);
        }
        r
    }

    /// How many entries match `pattern` ignoring case.
    pub fn count_metadata_matching_pattern(&self, pattern: &str) -> (r: usize)
        ensures
            r == self.metadata@.filter(key_pattern_pred(pattern@)).len(),
    {
        self.get_metadata_matching_pattern(pattern).len()
    }

    /// The text under `key` when it is a string.
    pub fn get_metadata_as_string(&self, key: &str) -> (r: Option<&str>)
        ensures
            match r {
                Some(t) => self.meta().contains_key(key@) && self.meta()[key@] == JsonData::Str(t@),
                None => !(self.meta().contains_key(key@) && self.meta()[key@] is Str),
            },
    {
        match meta_get(&self.metadata, key) {
            Some(v) => v.as_str(),
            None => None,
        }
    }

    /// The boolean under `key` when it is a boolean.
    pub fn get_metadata_as_bool(&self, key: &str) -> (r: Option<bool>)
        ensures
            match r {
                Some(b) => self.meta().contains_key(key@) && self.meta()[key@] == JsonData::Bool(b),
                None => !(self.meta().contains_key(key@) && self.meta()[key@] is Bool),
            },
    {
        match meta_get(&self.metadata, key) {
            Some(JsonValue::Bool(b)) => Some(*b),
            _ => None,
        }
    }

    /// Sets `key` to a string value and stamps the update time.
    pub fn set_metadata_string(&mut self, key: &str, value: &str)
        ensures
            final(self).meta() == old(self).meta().insert(key@, JsonData::Str(value@)),
            final(self).same_but_metadata(*old(self)),
    {
        let now = now_millis();
        self.set_metadata_string_at(key, value, now)
    }

    /// As `set_metadata_string`, with `now` as the time stamped.
    pub fn set_metadata_string_at(&mut self, key: &str, value: &str, now: i64)
        ensures
            final(self).meta() == old(self).meta().insert(key@, JsonData::Str(value@)),
            final(self).same_but_metadata(*old(self)),
            final(self).updated_at == now,
    {
        self.update_metadata_at(key, JsonValue::String(owned(value)), now);
    }

    /// Sets `key` to a boolean value and stamps the update time.
    pub fn set_metadata_bool(&mut self, key: &str, value: bool)
        ensures
            final(self).meta() == old(self).meta().insert(key@, JsonData::Bool(value)),
            final(self).same_but_metadata(*old(self)),
    {
        let now = now_millis();
        self.set_metadata_bool_at(key, value, now)
    }

    /// As `set_metadata_bool`, with `now` as the time stamped.
    pub fn set_metadata_bool_at(&mut self, key: &str, value: bool, now: i64)
        ensures
            final(self).meta() == old(self).meta().insert(key@, JsonData::Bool(value)),
            final(self).same_but_metadata(*old(self)),
            final(self).updated_at == now,
    {
        self.update_metadata_at(key, JsonValue::Bool(value), now);
    }

    /// Whether `key` holds a value equal to `expected_value`.
    pub fn metadata_equals(&self, key: &str, expected_value: &JsonValue) -> (r: bool)
        ensures
            r == (self.meta().contains_key(key@) && self.meta()[key@] == expected_value@),
    {
        match meta_get(&self.metadata, key) {
            Some(v) => crate::json::json_eq(v, expected_value),
            None => false,
        }
    }

    /// A copy of the metadata.
    pub fn clone_metadata(&self) -> (r: Metadata)
        ensures
            meta_view(r@) == self.meta(),
    {
        meta_copy(&self.metadata)
    }

    /// The entries whose value is of the JSON kind named `value_type` ("string",
    /// "number", "boolean", "array", "object" or "null"), in order; other names select
    /// nothing.
    pub fn filter_metadata_by_type(&self, value_type: &str) -> (r: Vec<&(String, JsonValue)>)
        ensures
            derefs(r@) == self.metadata@.filter(kind_pred(value_type@)),
    {
        let mut r: Vec<&(String, JsonValue)> = Vec::new();
        let mut i: usize = 0;
        while i < self.metadata.len()
            invariant
                i <= self.metadata@.len(),
                derefs(r@) == self.metadata@.take(i as int).filter(kind_pred(value_type@)),
            decreases self.metadata.len() - i,
        {
            proof {
                lemma_filter_step(self.metadata@, i as int, kind_pred(value_type@));
            }
            if value_is_kind(&self.metadata[i].1, value_type) {
                let ghost before = derefs(r@);
                r.push(&self.metadata[i]);
                assert(derefs(r@) =~= before.push(self.metadata@[i as int]));
            }
            i = i + 1;
        }
        proof {
            lemma_take_full(self.metadata@);
        }
        r
    }

    /// "No metadata", or "Metadata keys: " followed by the keys joined by ", ".
    pub fn metadata_summary(&self) -> (r: String)
        ensures
            self.metadata@.len() == 0 ==> r@ == "No metadata"@,
            self.metadata@.len() > 0 ==> r@ == "Metadata keys: "@ + joined_keys(self.metadata@),
    {
        if self.metadata.len() == 0 {
            return owned("No metadata");
        }
        let mut r = owned("Metadata keys: ");
        let mut i: usize = 0;
        while i < self.metadata.len()
            invariant
                i <= self.metadata@.len(),
                self.metadata@.len() > 0,
                r@ == "Metadata keys: "@ + joined_keys(self.metadata@.take(i as int)),
            decreases self.metadata.len() - i,
        {
            let ghost t = self.metadata@.take(i + 1);
            assert(t.drop_last() =~= self.metadata@.take(i as int));
            if i > 0 {
                r.append(", ");
            }
            r.append(self.metadata[i].0.as_str());
            proof {
                if i == 0 {
                    assert(t.len() == 1);
                    assert(self.metadata@.take(0) =~= Seq::<(String, JsonValue)>::empty());
                    assert(r@ =~= "Metadata keys: "@ + joined_keys(t));
                } else {
                    assert(r@ =~= "Metadata keys: "@ + joined_keys(t));
                }
            }
            i = i + 1;
        }
        proof {
            lemma_take_full(self.metadata@);
        }
        r
    }
}

/// `base` followed by each string of `extra` not already present, in order.
pub open spec fn merged_tags(base: Seq<Seq<char>>, extra: Seq<Seq<char>>) -> Seq<Seq<char>>
    decreases extra.len(),
{
    if extra.len() == 0 {
        base
    } else {
        let m = merged_tags(base, extra.drop_last());
        if m.contains(extra.last()) {
            m
        } else {
            m.push(extra.last())
        }
    }
}

/// The item matches the lower-cased query `q` through its id, category, a tag, or
/// string content.
pub open spec fn matches_query_spec(item: SemanticItem, query: Seq<char>) -> bool {
    let q = lowercase(query);
    ||| has_substring(lowercase(item.id@), q)
    ||| has_substring(lowercase(item.category@), q)
    ||| exists|i: int| 0 <= i < item.tags@.len() && has_substring(lowercase((#[trigger] item.tags@[i])@), q)
    ||| (item.content@ is Str && has_substring(lowercase(item.content@->Str_0), q))
}

impl SemanticItem {
    /// Whether the query, ignoring case, occurs in the id, the category, a tag, or the
    /// content when that is a string.
    pub fn matches_query(&self, query: &str) -> (r: bool)
        ensures
            r == matches_query_spec(*self, query@),
    {
        let lq = to_lowercase(query);
        let q = chars_of(lq.as_str());
        if matches_lowered(&self.id, &q) {
            return true;
        }
        if matches_lowered(&self.category, &q) {
            return true;
        }
        let mut i: usize = 0;
        while i < self.tags.len()
            invariant
                i <= self.tags@.len(),
                q@ == lowercase(query@),
                forall|j: int| 0 <= j < i ==> !has_substring(lowercase((#[trigger] self.tags@[j])@), q@),
            decreases self.tags.len() - i,
        {
            if matches_lowered(&self.tags[i], &q) {
                return true;
            }
            i = i + 1;
        }
        match &self.content {
            JsonValue::String(t) => matches_lowered(t, &q),
            _ => false,
        }
    }
}

/// Builds, checks and combines items.
pub struct SemanticItemConverter;

impl SemanticItemConverter {
    /// Checks an item: its id and category must be non-empty and it cannot have been
    /// updated before it was created. The first broken rule is reported.
    pub fn validate_item(item: &SemanticItem) -> (r: Result<(), crate::error::MemoryError>)
        ensures
            item.id@.len() == 0 ==> (r matches Err(crate::error::MemoryError::ConversionError(m))
                && m@ == "SemanticItem ID cannot be empty"@),
            item.id@.len() > 0 && item.category@.len() == 0 ==> (r matches Err(
                crate::error::MemoryError::ConversionError(m),
            ) && m@ == "SemanticItem category cannot be empty"@),
            item.id@.len() > 0 && item.category@.len() > 0 && item.updated_at < item.created_at ==> (r matches Err(
                crate::error::MemoryError::ConversionError(m),
            ) && m@ == "SemanticItem updated_at cannot be before created_at"@),
            r is Ok <==> (item.id@.len() > 0 && item.category@.len() > 0 && item.updated_at >= item.created_at),
    {
        if item.id.as_str().is_empty() {
            return Err(crate::error::MemoryError::ConversionError(owned("SemanticItem ID cannot be empty")));
        }
        if item.category.as_str().is_empty() {
            return Err(
                crate::error::MemoryError::ConversionError(owned("SemanticItem category cannot be empty")),
            );
        }
        if item.updated_at < item.created_at {
            return Err(
                crate::error::MemoryError::ConversionError(
                    owned("SemanticItem updated_at cannot be before created_at"),
                ),
            );
        }
        Ok(())
    }

    /// A new item whose content is the given text.
    pub fn create_minimal(id: &str, item_type: SemanticItemType, content_str: &str) -> (r: SemanticItem)
        ensures
            r.id@ == id@,
            r.item_type == item_type,
            r.category@ == kind_name(item_type),
            r.content@ == JsonData::Str(content_str@),
            r.tags@.len() == 0,
            r.confidence == ConfidenceLevel::Medium,
            r.created_at == r.updated_at,
            r.metadata@.len() == 0,
    {
        SemanticItem::new(id, item_type, JsonValue::String(owned(content_str)))
    }

    /// A new item carrying the given tags.
    pub fn create_with_tags(id: &str, item_type: SemanticItemType, content: JsonValue, tags: Vec<String>) -> (r:
        SemanticItem)
        ensures
            r.id@ == id@,
            r.item_type == item_type,
            r.category@ == kind_name(item_type),
            r.content == content,
            r.tags == tags,
            r.confidence == ConfidenceLevel::Medium,
            r.created_at == r.updated_at,
            r.metadata@.len() == 0,
    {
        let mut item = SemanticItem::new(id, item_type, content);
        item.tags = tags;
        item
    }

    /// A new item carrying the given metadata.
    pub fn create_with_metadata(id: &str, item_type: SemanticItemType, content: JsonValue, metadata: Metadata) -> (r:
        SemanticItem)
        ensures
            r.id@ == id@,
            r.item_type == item_type,
            r.category@ == kind_name(item_type),
            r.content == content,
            r.tags@.len() == 0,
            r.confidence == ConfidenceLevel::Medium,
            r.created_at == r.updated_at,
            r.metadata == metadata,
    {
        let mut item = SemanticItem::new(id, item_type, content);
        item.metadata = metadata;
        item
    }

    /// A copy of the item under a new id, with both timestamps set to the current time.
    pub fn clone_with_new_id(item: &SemanticItem, new_id: &str) -> (r: SemanticItem)
        ensures
            r.id@ == new_id@,
            r.item_type == item.item_type,
            r.category == item.category,
            r.content@ == item.content@,
            r.tags@ == item.tags@,
            r.confidence == item.confidence,
            r.created_at == r.updated_at,
            r.meta() == item.meta(),
    {
        let now = now_millis();
        SemanticItem {
            id: owned(new_id),
            item_type: item.item_type,
            category: item.category.clone(),
            content: item.content.copy(),
            tags: copy_strings(&item.tags),
            confidence: item.confidence,
            created_at: now,
            updated_at: now,
            metadata: meta_copy(&item.metadata),
        }
    }

    /// `base` with the other item's new tags appended, its metadata set over the base's,
    /// the higher of the two confidence levels, and the update time stamped.
    pub fn merge_items(base: &SemanticItem, other: &SemanticItem) -> (r: SemanticItem)
        ensures
            r.id == base.id,
            r.item_type == base.item_type,
            r.category == base.category,
            r.content@ == base.content@,
            r.tag_view() == merged_tags(base.tag_view(), other.tag_view()),
            r.meta() == base.meta().union_prefer_right(other.meta()),
            r.confidence == (if other.confidence.rank() > base.confidence.rank() {
                other.confidence
            } else {
                base.confidence
            }),
            r.created_at == base.created_at,
    {
        let mut merged = base.copy();
        let mut i: usize = 0;
        while i < other.tags.len()
            invariant
                i <= other.tags@.len(),
                merged.tag_view() == merged_tags(base.tag_view(), other.tag_view().take(i as int)),
                merged.id == base.id,
                merged.item_type == base.item_type,
                merged.category == base.category,
                merged.content@ == base.content@,
                merged.meta() == base.meta(),
                merged.confidence == base.confidence,
                merged.created_at == base.created_at,
            decreases other.tags.len() - i,
        {
            proof {
                assert(other.tag_view().take(i + 1).drop_last() =~= other.tag_view().take(i as int));
                assert(other.tag_view().take(i + 1).last() == other.tags@[i as int]@);
            }
            if !contains_string(&merged.tags, other.tags[i].as_str()) {
                let ghost before = merged.tag_view();
                merged.tags.push(other.tags[i].clone());
                assert(merged.tag_view() =~= before.push(other.tags@[i as int]@));
            }
            i = i + 1;
        }
        proof {
            lemma_take_full(other.tag_view());
        }
        let mut j: usize = 0;
        while j < other.metadata.len()
            invariant
                j <= other.metadata@.len(),
                merged.tag_view() == merged_tags(base.tag_view(), other.tag_view()),
                merged.id == base.id,
                merged.item_type == base.item_type,
                merged.category == base.category,
                merged.content@ == base.content@,
                merged.meta() == base.meta().union_prefer_right(meta_view(other.metadata@.take(j as int))),
                merged.confidence == base.confidence,
                merged.created_at == base.created_at,
            decreases other.metadata.len() - j,
        {
            meta_insert(&mut merged.metadata, other.metadata[j].0.clone(), other.metadata[j].1.copy());
            proof {
                let t = other.metadata@.take(j + 1);
                assert(t.drop_last() =~= other.metadata@.take(j as int));
                assert(merged.meta() =~= base.meta().union_prefer_right(meta_view(t)));
            }
            j = j + 1;
        }
        proof {
            lemma_take_full(other.metadata@);
        }
        if other.confidence.ordinal() > merged.confidence.ordinal() {
            merged.confidence = other.confidence;
        }
        merged.updated_at = now_millis();
        merged
    }
}

} // verus!
