//! Selecting, counting and paging the items of a memory.

use vstd::prelude::*;
use crate::confidence::ConfidenceLevel;
use crate::item::{derefs, strings_view, SemanticItem};
use crate::item_types::SemanticItemType;
use crate::json::JsonValue;
use crate::memory::SemanticMemory;
use crate::relationship::{same_relationship_type, SemanticRelationship, SemanticRelationshipType};
use crate::snapshots::same_type;
use crate::meta::{lemma_meta_view_keys, meta_get, meta_view, Metadata};
use crate::seqs::{lemma_filter_step, lemma_take_full};
use crate::text::{has_substring, str_contains, str_eq};
use crate::order::{insert_sorted_unique, key_view, sorts_stably, stable_order, strictly_sorted, texts};

verus! {

/// Keeps the items whose category is `c`.
pub open spec fn in_category(c: Seq<char>) -> spec_fn(SemanticItem) -> bool {
    |it: SemanticItem| it.category@ == c
}

/// Keeps the items of type `t`.
pub open spec fn of_type(t: SemanticItemType) -> spec_fn(SemanticItem) -> bool {
    |it: SemanticItem| it.item_type == t
}

/// Keeps the items with confidence `c`.
pub open spec fn with_confidence(c: ConfidenceLevel) -> spec_fn(SemanticItem) -> bool {
    |it: SemanticItem| it.confidence == c
}

/// Keeps the items with confidence `c` or higher.
pub open spec fn at_least(c: ConfidenceLevel) -> spec_fn(SemanticItem) -> bool {
    |it: SemanticItem| it.confidence.rank() >= c.rank()
}

/// Keeps the items that carry every tag of `tags`.
pub open spec fn all_tags(tags: Seq<String>) -> spec_fn(SemanticItem) -> bool {
    |it: SemanticItem| forall|i: int| 0 <= i < tags.len() ==> it.tag_view().contains((#[trigger] tags[i])@)
}

/// Keeps the items that carry some tag of `tags`.
pub open spec fn any_tag(tags: Seq<String>) -> spec_fn(SemanticItem) -> bool {
    |it: SemanticItem| exists|i: int| 0 <= i < tags.len() && it.tag_view().contains((#[trigger] tags[i])@)
}

/// Keeps the items whose content is a string containing `sub`.
pub open spec fn content_has(sub: Seq<char>) -> spec_fn(SemanticItem) -> bool {
    |it: SemanticItem| it.content@ is Str && has_substring(it.content@->Str_0, sub)
}

/// Keeps the items created within `start..=end` (milliseconds since the Unix epoch).
pub open spec fn created_within(start: i64, end: i64) -> spec_fn(SemanticItem) -> bool {
    |it: SemanticItem| start <= it.created_at && it.created_at <= end
}

/// Keeps the items updated at `cutoff` or later.
pub open spec fn updated_since(cutoff: int) -> spec_fn(SemanticItem) -> bool {
    |it: SemanticItem| it.updated_at >= cutoff
}

/// Keeps the items whose metadata has the key `k`.
pub open spec fn has_key(k: Seq<char>) -> spec_fn(SemanticItem) -> bool {
    |it: SemanticItem| it.meta().contains_key(k)
}

/// Keeps the items whose metadata maps `k` to `v`.
pub open spec fn has_entry(k: Seq<char>, v: crate::json::JsonData) -> spec_fn(SemanticItem) -> bool {
    |it: SemanticItem| it.meta().contains_key(k) && it.meta()[k] == v
}

/// What a search asks of an item; an absent criterion asks nothing.
#[derive(Debug)]
pub struct SearchCriteria {
    /// The content must be a string containing this.
    pub content_contains: Option<String>,
    /// The category must be this.
    pub category: Option<String>,
    /// The type must be this.
    pub item_type: Option<SemanticItemType>,
    /// The confidence must be at least this.
    pub min_confidence: Option<ConfidenceLevel>,
    /// Every one of these tags must be present.
    pub required_tags: Option<Vec<String>>,
    /// Some one of these tags must be present.
    pub any_tags: Option<Vec<String>>,
    /// The creation time must lie in this inclusive range (milliseconds since the Unix
    /// epoch).
    pub time_range: Option<(i64, i64)>,
    /// The metadata must map each key of these entries to its value (the last entry of a
    /// key holds its value).
    pub metadata_filters: Option<Metadata>,
}

/// The item's metadata maps each key of `f` to the value `f` gives it.
pub open spec fn filters_hold(it: SemanticItem, f: Seq<(String, JsonValue)>) -> bool {
    forall|k: Seq<char>| #[trigger] meta_view(f).contains_key(k) ==> it.meta().contains_key(k) && it.meta()[k] == meta_view(f)[k]
}

/// The item meets every criterion that is present.
pub open spec fn meets_criteria(it: SemanticItem, c: SearchCriteria) -> bool {
    &&& (c.content_contains matches Some(s) ==> content_has(s@)(it))
    &&& (c.category matches Some(s) ==> it.category@ == s@)
    &&& (c.item_type matches Some(t) ==> it.item_type == t)
    &&& (c.min_confidence matches Some(m) ==> it.confidence.rank() >= m.rank())
    &&& (c.required_tags matches Some(ts) ==> all_tags(ts@)(it))
    &&& (c.any_tags matches Some(ts) ==> any_tag(ts@)(it))
    &&& (c.time_range matches Some(tr) ==> tr.0 <= it.created_at && it.created_at <= tr.1)
    &&& (c.metadata_filters matches Some(f) ==> filters_hold(it, f@))
}

/// Keeps the items that meet the criteria.
pub open spec fn meeting(c: SearchCriteria) -> spec_fn(SemanticItem) -> bool {
    |it: SemanticItem| meets_criteria(it, c)
}

/// Whether the item's metadata maps each key of `f` to the value `f` gives it.
fn metadata_filters_hold(it: &SemanticItem, f: &Metadata) -> (r: bool)
    ensures
        r == filters_hold(*it, f@),
{
    let mut i: usize = 0;
    while i < f.len()
        invariant
            i <= f@.len(),
            forall|j: int|
                0 <= j < i ==> it.meta().contains_key((#[trigger] f@[j]).0@) && it.meta()[f@[j].0@] == meta_view(f@)[f@[j].0@],
        decreases f.len() - i,
    {
        let expected = meta_get(f, f[i].0.as_str());
        let found = it.get_metadata(f[i].0.as_str());
        match (found, expected) {
            (Some(a), Some(b)) => {
                if !crate::json::json_eq(a, b) {
                    proof {
                        assert(meta_view(f@).contains_key(f@[i as int].0@));
                    }
                    return false;
                }
            },
            (None, _) => {
                proof {
                    lemma_meta_view_keys(f@, f@[i as int].0@);
                    assert(meta_view(f@).contains_key(f@[i as int].0@));
                }
                return false;
            },
            (Some(_), None) => {
                proof {
                    lemma_meta_view_keys(f@, f@[i as int].0@);
                }
            },
        }
        i = i + 1;
    }
    proof {
        assert forall|k: Seq<char>| #[trigger] meta_view(f@).contains_key(k) implies it.meta().contains_key(k) && it.meta()[k]
            == meta_view(f@)[k] by {
            lemma_meta_view_keys(f@, k);
            let j = choose|j: int| 0 <= j < f@.len() && (#[trigger] f@[j]).0@ == k;
        }
    }
    true
}

/// Whether the item meets every criterion that is present.
fn meets(it: &SemanticItem, c: &SearchCriteria) -> (r: bool)
    ensures
        r == meets_criteria(*it, *c),
{
    match &c.content_contains {
        Some(sub) => {
            let ok = match &it.content {
                JsonValue::String(text) => str_contains(text.as_str(), sub.as_str()),
                _ => false,
            };
            if !ok {
                return false;
            }
        },
        None => {},
    }
    match &c.category {
        Some(cat) => {
            if !str_eq(it.category.as_str(), cat.as_str()) {
                return false;
            }
        },
        None => {},
    }
    match &c.item_type {
        Some(t) => {
            if it.item_type != *t {
                return false;
            }
        },
        None => {},
    }
    match &c.min_confidence {
        Some(m) => {
            if !it.confidence.meets_threshold(*m) {
                return false;
            }
        },
        None => {},
    }
    match &c.required_tags {
        Some(ts) => {
            if !it.has_all_tags(ts.as_slice()) {
                return false;
            }
        },
        None => {},
    }
    match &c.any_tags {
        Some(ts) => {
            if !it.has_any_tags(ts.as_slice()) {
                return false;
            }
        },
        None => {},
    }
    match &c.time_range {
        Some(tr) => {
            if it.created_at < tr.0 || it.created_at > tr.1 {
                return false;
            }
        },
        None => {},
    }
    match &c.metadata_filters {
        Some(f) => {
            if !metadata_filters_hold(it, f) {
                return false;
            }
        },
        None => {},
    }
    true
}

/// Some item has the category `y`.
pub open spec fn category_present(items: Seq<SemanticItem>, y: Seq<char>) -> bool {
    exists|i: int| 0 <= i < items.len() && (#[trigger] items[i]).category@ == y
}

/// Some item carries the tag `y`.
pub open spec fn tag_present(items: Seq<SemanticItem>, y: Seq<char>) -> bool {
    exists|i: int| 0 <= i < items.len() && (#[trigger] items[i]).tag_view().contains(y)
}

/// The creation times, negated for a descending order.
pub open spec fn creation_keys(items: Seq<SemanticItem>, ascending: bool) -> Seq<int> {
    Seq::new(items.len(), |i: int| if ascending { items[i].created_at as int } else { -(items[i].created_at as int) })
}

/// The update times, negated for a descending order.
pub open spec fn update_keys(items: Seq<SemanticItem>, ascending: bool) -> Seq<int> {
    Seq::new(items.len(), |i: int| if ascending { items[i].updated_at as int } else { -(items[i].updated_at as int) })
}

/// The tag counts, negated: most tags first.
pub open spec fn most_tags_keys(items: Seq<SemanticItem>) -> Seq<int> {
    Seq::new(items.len(), |i: int| -(items[i].tags@.len() as int))
}

/// The items in the order of the positions `ord`.
pub open spec fn in_order(items: Seq<SemanticItem>, ord: Seq<usize>) -> Seq<SemanticItem> {
    ord.map_values(|i: usize| items[i as int])
}

/// One page of a listing.
#[derive(Debug)]
pub struct PaginatedResult<T> {
    /// The entries of the page.
    pub items: Vec<T>,
    /// The page number, counting from 1.
    pub current_page: usize,
    /// Entries to a page.
    pub page_size: usize,
    /// Entries in the whole listing.
    pub total_items: usize,
    /// Pages in the whole listing.
    pub total_pages: usize,
    /// Whether a later page exists.
    pub has_next: bool,
    /// Whether an earlier page exists.
    pub has_previous: bool,
}

impl SemanticMemory {
    /// The items that `keep` accepts, in order; `keep` decides as `p` states.
    fn select_items<F: Fn(&SemanticItem) -> bool>(&self, keep: F, Ghost(p): Ghost<spec_fn(SemanticItem) -> bool>) -> (r: Vec<
        &SemanticItem,
    >)
        requires
            forall|it: SemanticItem| #[trigger] keep.requires((&it,)),
            forall|it: SemanticItem, b: bool| #[trigger] keep.ensures((&it,), b) ==> b == p(it),
        ensures
            derefs(r@) == self.items@.filter(p),
    {
        let mut out: Vec<&SemanticItem> = Vec::new();
        let mut i: usize = 0;
        while i < self.items.len()
            invariant
                i <= self.items@.len(),
                forall|it: SemanticItem| #[trigger] keep.requires((&it,)),
                forall|it: SemanticItem, b: bool| #[trigger] keep.ensures((&it,), b) ==> b == p(it),
                derefs(out@) == self.items@.take(i as int).filter(p),
            decreases self.items.len() - i,
        {
            proof {
                lemma_filter_step(self.items@, i as int, p);
            }
            let it = &self.items[i];
            if keep(it) {
                let ghost before = derefs(out@);
                out.push(it);
                assert(derefs(out@) =~= before.push(self.items@[i as int]));
            }
            i = i + 1;
        }
        proof {
            lemma_take_full(self.items@);
        }
        out
    }

    /// The items whose category is `category`, in order.
    pub fn get_items_by_category(&self, category: &str) -> (r: Vec<&SemanticItem>)
        ensures
            derefs(r@) == self.items@.filter(in_category(category@)),
    {
        let keep = (|it: &SemanticItem| -> (b: bool)
            ensures
                b == in_category(category@)(*it),
        { str_eq(it.category.as_str(), category) });
        self.select_items(keep, Ghost(in_category(category@)))
    }

    /// The items whose content is a string containing `substring`, in order.
    pub fn find_items_by_content(&self, substring: &str) -> (r: Vec<&SemanticItem>)
        ensures
            derefs(r@) == self.items@.filter(content_has(substring@)),
            forall|k: int|
                0 <= k < self.items@.len() ==> (derefs(r@).contains(#[trigger] self.items@[k]) <==> (self.items@[k].content@ is Str
                    && exists|i: int|
                    0 <= i && i + substring@.len() <= self.items@[k].content@->Str_0.len()
                        && #[trigger] self.items@[k].content@->Str_0.subrange(i, i + substring@.len()) == substring@)),
    {
        let keep = (|it: &SemanticItem| -> (b: bool)
            ensures
                b == content_has(substring@)(*it),
        {
            match &it.content {
                JsonValue::String(text) => str_contains(text.as_str(), substring),
                _ => false,
            }
        });
        let r = self.select_items(keep, Ghost(content_has(substring@)));
        proof {
            crate::result_laws::law_content_search_matches_anywhere(self.items@, substring@, derefs(r@));
        }
        r
    }

    /// The items of type `item_type`, in order.
    pub fn get_items_by_type(&self, item_type: &SemanticItemType) -> (r: Vec<&SemanticItem>)
        ensures
            derefs(r@) == self.items@.filter(of_type(*item_type)),
    {
        let t = *item_type;
        let keep = (|it: &SemanticItem| -> (b: bool)
            ensures
                b == of_type(t)(*it),
        { it.item_type == t });
        self.select_items(keep, Ghost(of_type(t)))
    }

    /// The items with confidence `confidence`, in order.
    pub fn get_items_by_confidence(&self, confidence: ConfidenceLevel) -> (r: Vec<&SemanticItem>)
        ensures
            derefs(r@) == self.items@.filter(with_confidence(confidence)),
    {
        let keep = (|it: &SemanticItem| -> (b: bool)
            ensures
                b == with_confidence(confidence)(*it),
        { it.confidence == confidence });
        self.select_items(keep, Ghost(with_confidence(confidence)))
    }

    /// The items with confidence `threshold` or higher, in order.
    pub fn get_items_above_confidence(&self, threshold: ConfidenceLevel) -> (r: Vec<&SemanticItem>)
        ensures
            derefs(r@) == self.items@.filter(at_least(threshold)),
    {
        let keep = (|it: &SemanticItem| -> (b: bool)
            ensures
                b == at_least(threshold)(*it),
        { it.confidence.meets_threshold(threshold) });
        self.select_items(keep, Ghost(at_least(threshold)))
    }

    /// The items that carry every tag of `tags`, in order.
    pub fn get_items_with_tags(&self, tags: &[String]) -> (r: Vec<&SemanticItem>)
        ensures
            derefs(r@) == self.items@.filter(all_tags(tags@)),
    {
        let keep = (|it: &SemanticItem| -> (b: bool)
            ensures
                b == all_tags(tags@)(*it),
        { it.has_all_tags(tags) });
        self.select_items(keep, Ghost(all_tags(tags@)))
    }

    /// The items that carry some tag of `tags`, in order.
    pub fn get_items_with_any_tags(&self, tags: &[String]) -> (r: Vec<&SemanticItem>)
        ensures
            derefs(r@) == self.items@.filter(any_tag(tags@)),
    {
        let keep = (|it: &SemanticItem| -> (b: bool)
            ensures
                b == any_tag(tags@)(*it),
        { it.has_any_tags(tags) });
        self.select_items(keep, Ghost(any_tag(tags@)))
    }

    /// The items created from `start` to `end` inclusive (milliseconds since the Unix
    /// epoch), in order.
    pub fn get_items_in_time_range(&self, start: i64, end: i64) -> (r: Vec<&SemanticItem>)
        ensures
            derefs(r@) == self.items@.filter(created_within(start, end)),
    {
        let keep = (|it: &SemanticItem| -> (b: bool)
            ensures
                b == created_within(start, end)(*it),
        { it.created_at >= start && it.created_at <= end });
        self.select_items(keep, Ghost(created_within(start, end)))
    }

    /// The items updated no earlier than `duration_ms` milliseconds before `now_ms`,
    /// in order.
    pub fn get_items_updated_since(&self, now_ms: i64, duration_ms: i64) -> (r: Vec<&SemanticItem>)
        ensures
            derefs(r@) == self.items@.filter(updated_since(now_ms - duration_ms)),
    {
        let cutoff: i128 = now_ms as i128 - duration_ms as i128;
        let keep = (|it: &SemanticItem| -> (b: bool)
            ensures
                b == updated_since(now_ms - duration_ms)(*it),
        { it.updated_at as i128 >= cutoff });
        self.select_items(keep, Ghost(updated_since(now_ms - duration_ms)))
    }

    /// The items updated within the last `duration_ms` milliseconds by the clock, in
    /// order.
    pub fn get_recently_updated_items(&self, duration_ms: i64) -> (r: Vec<&SemanticItem>)
        ensures
            exists|now: i64| derefs(r@) == self.items@.filter(#[trigger] updated_since(now - duration_ms)),
    {
        let now = crate::clock::now_millis();
        self.get_items_updated_since(now, duration_ms)
    }

    /// The items whose metadata has the key `key`, in order.
    pub fn get_items_with_metadata_key(&self, key: &str) -> (r: Vec<&SemanticItem>)
        ensures
            derefs(r@) == self.items@.filter(has_key(key@)),
    {
        let keep = (|it: &SemanticItem| -> (b: bool)
            ensures
                b == has_key(key@)(*it),
        { it.has_metadata_key(key) });
        self.select_items(keep, Ghost(has_key(key@)))
    }

    /// The items whose metadata maps `key` to a value equal to `value`, in order.
    pub fn get_items_with_metadata_value(&self, key: &str, value: &JsonValue) -> (r: Vec<&SemanticItem>)
        ensures
            derefs(r@) == self.items@.filter(has_entry(key@, value@)),
    {
        let keep = (|it: &SemanticItem| -> (b: bool)
            ensures
                b == has_entry(key@, value@)(*it),
        {
            match it.get_metadata(key) {
                Some(v) => crate::json::json_eq(v, value),
                None => false,
            }
        });
        self.select_items(keep, Ghost(has_entry(key@, value@)))
    }

    /// Page `page` (counting from 1) of the items, `page_size` to a page; an empty page
    /// for page 0 or a page past the last.
    pub fn get_paginated_items(&self, page: usize, page_size: usize) -> (r: PaginatedResult<&SemanticItem>)
        requires
            page_size > 0,
            self.items@.len() + page_size <= usize::MAX,
        ensures
            r.current_page == page,
            r.page_size == page_size,
            r.total_items == self.items@.len(),
            r.total_pages == (self.items@.len() + page_size - 1) / page_size as int,
            page == 0 || page > r.total_pages ==> r.items@.len() == 0 && !r.has_next && !r.has_previous,
            1 <= page <= r.total_pages ==> derefs(r.items@) == self.items@.subrange(
                (page - 1) * page_size,
                if page * page_size <= self.items@.len() {
                    page * page_size
                } else {
                    self.items@.len() as int
                },
            ) && r.has_next == (page < r.total_pages) && r.has_previous == (page > 1),
    {
        let total_items = self.items.len();
        let total_pages = (total_items + page_size - 1) / page_size;
        if page == 0 || page > total_pages {
            return PaginatedResult {
                items: Vec::new(),
                current_page: page,
                page_size,
                total_items,
                total_pages,
                has_next: false,
                has_previous: false,
            };
        }
        proof {
            let n = total_items as int;
            let ps = page_size as int;
            let pg = page as int;
            assert((pg - 1) * ps < n) by (nonlinear_arith)
                requires
                    1 <= pg <= (n + ps - 1) / ps,
                    ps > 0,
                    n >= 0,
            {
                assert(pg - 1 < (n + ps - 1) / ps);
                assert((pg - 1) * ps <= ((n + ps - 1) / ps - 1) * ps);
                assert(((n + ps - 1) / ps) * ps <= n + ps - 1);
            }
            assert((pg - 1) * ps + ps == pg * ps) by (nonlinear_arith);
        }
        let start_index = (page - 1) * page_size;
        let end_index = if start_index + page_size <= total_items { start_index + page_size } else { total_items };
        let mut items: Vec<&SemanticItem> = Vec::new();
        let mut i: usize = start_index;
        while i < end_index
            invariant
                start_index <= i <= end_index <= self.items@.len(),
                derefs(items@) == self.items@.subrange(start_index as int, i as int),
            decreases end_index - i,
        {
            let ghost before = derefs(items@);
            items.push(&self.items[i]);
            assert(derefs(items@) =~= before.push(self.items@[i as int]));
            assert(derefs(items@) =~= self.items@.subrange(start_index as int, i + 1));
            i = i + 1;
        }
        PaginatedResult {
            items,
            current_page: page,
            page_size,
            total_items,
            total_pages,
            has_next: page < total_pages,
            has_previous: page > 1,
        }
    }

    /// The items that meet every criterion present in `criteria`, in order.
    pub fn search_items(&self, criteria: &SearchCriteria) -> (r: Vec<&SemanticItem>)
        ensures
            derefs(r@) == self.items@.filter(meeting(*criteria)),
    {
        let keep = (|it: &SemanticItem| -> (b: bool)
            ensures
                b == meeting(*criteria)(*it),
        { meets(it, criteria) });
        self.select_items(keep, Ghost(meeting(*criteria)))
    }

    /// The categories of the items, each once, in order of their characters.
    pub fn get_unique_categories(&self) -> (r: Vec<String>)
        ensures
            strictly_sorted(texts(r@)),
            forall|y: Seq<char>| #[trigger] texts(r@).contains(y) <==> category_present(self.items@, y),
    {
        let mut out: Vec<String> = Vec::new();
        let mut i: usize = 0;
        while i < self.items.len()
            invariant
                i <= self.items@.len(),
                strictly_sorted(texts(out@)),
                forall|y: Seq<char>| #[trigger] texts(out@).contains(y) <==> category_present(self.items@.take(i as int), y),
            decreases self.items.len() - i,
        {
            insert_sorted_unique(&mut out, &self.items[i].category);
            proof {
                let t = self.items@.take(i + 1);
                assert forall|y: Seq<char>| category_present(t, y) <==> (category_present(self.items@.take(i as int), y)
                    || y == self.items@[i as int].category@) by {
                    if category_present(t, y) {
                        let k = choose|k: int| 0 <= k < t.len() && (#[trigger] t[k]).category@ == y;
                        if k < i {
                            assert(self.items@.take(i as int)[k] == t[k]);
                        }
                    }
                    if category_present(self.items@.take(i as int), y) {
                        let k = choose|k: int| 0 <= k < i && (#[trigger] self.items@.take(i as int)[k]).category@ == y;
                        assert(t[k] == self.items@.take(i as int)[k]);
                    }
                    if y == self.items@[i as int].category@ {
                        assert(t[i as int] == self.items@[i as int]);
                    }
                }
            }
            i = i + 1;
        }
        proof {
            lemma_take_full(self.items@);
        }
        out
    }

    /// The tags of the items, each once, in order of their characters.
    pub fn get_unique_tags(&self) -> (r: Vec<String>)
        ensures
            strictly_sorted(texts(r@)),
            forall|y: Seq<char>| #[trigger] texts(r@).contains(y) <==> tag_present(self.items@, y),
    {
        let mut out: Vec<String> = Vec::new();
        let mut i: usize = 0;
        while i < self.items.len()
            invariant
                i <= self.items@.len(),
                strictly_sorted(texts(out@)),
                forall|y: Seq<char>| #[trigger] texts(out@).contains(y) <==> tag_present(self.items@.take(i as int), y),
            decreases self.items.len() - i,
        {
            let ghost before = texts(out@);
            let it = &self.items[i];
            let mut j: usize = 0;
            while j < it.tags.len()
                invariant
                    i < self.items@.len(),
                    *it == self.items@[i as int],
                    j <= it.tags@.len(),
                    strictly_sorted(texts(out@)),
                    forall|y: Seq<char>| #[trigger] texts(out@).contains(y) <==> (before.contains(y) || it.tag_view().take(
                        j as int,
                    ).contains(y)),
                decreases it.tags.len() - j,
            {
                insert_sorted_unique(&mut out, &it.tags[j]);
                proof {
                    let tv = it.tag_view();
                    assert(tv[j as int] == it.tags@[j as int]@);
                    assert(tv.take(j + 1) =~= tv.take(j as int).push(tv[j as int]));
                    assert forall|y: Seq<char>| tv.take(j + 1).contains(y) <==> (tv.take(j as int).contains(y) || y == tv[j as int]) by {
                        if tv.take(j + 1).contains(y) {
                            let k = choose|k: int| 0 <= k < j + 1 && #[trigger] tv.take(j + 1)[k] == y;
                            if k < j {
                                assert(tv.take(j as int)[k] == y);
                            }
                        }
                        if tv.take(j as int).contains(y) {
                            let k = choose|k: int| 0 <= k < j && #[trigger] tv.take(j as int)[k] == y;
                            assert(tv.take(j + 1)[k] == y);
                        }
                        if y == tv[j as int] {
                            assert(tv.take(j + 1)[j as int] == y);
                        }
                    }
                }
                j = j + 1;
            }
            proof {
                let tv = it.tag_view();
                assert(tv.take(it.tags@.len() as int) =~= tv);
                let t = self.items@.take(i + 1);
                assert forall|y: Seq<char>| tag_present(t, y) <==> (tag_present(self.items@.take(i as int), y) || tv.contains(y)) by {
                    if tag_present(t, y) {
                        let k = choose|k: int| 0 <= k < t.len() && (#[trigger] t[k]).tag_view().contains(y);
                        if k < i {
                            assert(self.items@.take(i as int)[k] == t[k]);
                        }
                    }
                    if tag_present(self.items@.take(i as int), y) {
                        let k = choose|k: int| 0 <= k < i && (#[trigger] self.items@.take(i as int)[k]).tag_view().contains(y);
                        assert(t[k] == self.items@.take(i as int)[k]);
                    }
                    if tv.contains(y) {
                        assert(t[i as int] == self.items@[i as int]);
                    }
                }
            }
            i = i + 1;
        }
        proof {
            lemma_take_full(self.items@);
        }
        out
    }

    /// The items in the order of `ord`.
    fn pick_in_order(&self, ord: &Vec<usize>) -> (r: Vec<&SemanticItem>)
        requires
            forall|i: int| 0 <= i < ord@.len() ==> #[trigger] ord@[i] < self.items@.len(),
        ensures
            derefs(r@) == in_order(self.items@, ord@),
    {
        let mut out: Vec<&SemanticItem> = Vec::new();
        let mut i: usize = 0;
        while i < ord.len()
            invariant
                i <= ord@.len(),
                forall|k: int| 0 <= k < ord@.len() ==> #[trigger] ord@[k] < self.items@.len(),
                derefs(out@) == in_order(self.items@, ord@.take(i as int)),
            decreases ord.len() - i,
        {
            let ghost before = derefs(out@);
            out.push(&self.items[ord[i]]);
            assert(derefs(out@) =~= before.push(self.items@[ord@[i as int] as int]));
            assert(ord@.take(i + 1) =~= ord@.take(i as int).push(ord@[i as int]));
            assert(in_order(self.items@, ord@.take(i + 1)) =~= in_order(self.items@, ord@.take(i as int)).push(
                self.items@[ord@[i as int] as int],
            ));
            i = i + 1;
        }
        assert(ord@.take(ord@.len() as int) =~= ord@);
        out
    }

    /// The items by creation time, oldest first when `ascending`, newest first
    /// otherwise; items created at the same time keep their order.
    pub fn get_items_sorted_by_creation(&self, ascending: bool) -> (r: Vec<&SemanticItem>)
        ensures
            exists|ord: Seq<usize>| #[trigger] sorts_stably(ord, creation_keys(self.items@, ascending)) && derefs(r@) == in_order(
                self.items@,
                ord,
            ),
            derefs(r@).len() == self.items@.len(),
            forall|i: int, j: int|
                0 <= i < j < derefs(r@).len() ==> (ascending ==> (#[trigger] derefs(r@)[i]).created_at <= (
                #[trigger] derefs(r@)[j]).created_at) && (!ascending ==> derefs(r@)[i].created_at >= derefs(r@)[j].created_at),
    {
        let mut keys: Vec<i128> = Vec::new();
        let mut i: usize = 0;
        while i < self.items.len()
            invariant
                i <= self.items@.len(),
                key_view(keys@) == creation_keys(self.items@, ascending).take(i as int),
            decreases self.items.len() - i,
        {
            let t = self.items[i].created_at as i128;
            let kx: i128 = if ascending { t } else { -t };
            let ghost kb = key_view(keys@);
            keys.push(kx);
            assert(key_view(keys@) =~= kb.push(kx as int));
            assert(creation_keys(self.items@, ascending).take(i + 1) =~= creation_keys(self.items@, ascending).take(i as int).push(creation_keys(self.items@, ascending)[i as int]));
            assert(key_view(keys@) =~= creation_keys(self.items@, ascending).take(i + 1));
            i = i + 1;
        }
        assert(creation_keys(self.items@, ascending).take(self.items@.len() as int) =~= creation_keys(self.items@, ascending));
        let ord = stable_order(&keys);
        let r = self.pick_in_order(&ord);
        proof {
            crate::result_laws::law_sorted_by_creation_orders_times(self.items@, ascending, derefs(r@));
        }
        r
    }

    /// The items by update time, least recent first when `ascending`, most recent first
    /// otherwise; items updated at the same time keep their order.
    pub fn get_items_sorted_by_update(&self, ascending: bool) -> (r: Vec<&SemanticItem>)
        ensures
            exists|ord: Seq<usize>| #[trigger] sorts_stably(ord, update_keys(self.items@, ascending)) && derefs(r@) == in_order(
                self.items@,
                ord,
            ),
            derefs(r@).len() == self.items@.len(),
            forall|i: int, j: int|
                0 <= i < j < derefs(r@).len() ==> (ascending ==> (#[trigger] derefs(r@)[i]).updated_at <= (
                #[trigger] derefs(r@)[j]).updated_at) && (!ascending ==> derefs(r@)[i].updated_at >= derefs(r@)[j].updated_at),
    {
        let mut keys: Vec<i128> = Vec::new();
        let mut i: usize = 0;
        while i < self.items.len()
            invariant
                i <= self.items@.len(),
                key_view(keys@) == update_keys(self.items@, ascending).take(i as int),
            decreases self.items.len() - i,
        {
            let t = self.items[i].updated_at as i128;
            let kx: i128 = if ascending { t } else { -t };
            let ghost kb = key_view(keys@);
            keys.push(kx);
            assert(key_view(keys@) =~= kb.push(kx as int));
            assert(update_keys(self.items@, ascending).take(i + 1) =~= update_keys(self.items@, ascending).take(i as int).push(update_keys(self.items@, ascending)[i as int]));
            assert(key_view(keys@) =~= update_keys(self.items@, ascending).take(i + 1));
            i = i + 1;
        }
        assert(update_keys(self.items@, ascending).take(self.items@.len() as int) =~= update_keys(self.items@, ascending));
        let ord = stable_order(&keys);
        let r = self.pick_in_order(&ord);
        proof {
            crate::result_laws::law_sorted_by_update_orders_times(self.items@, ascending, derefs(r@));
        }
        r
    }

    /// The first `limit` items by number of tags, most first; items with as many tags
    /// keep their order.
    pub fn get_items_with_most_tags(&self, limit: usize) -> (r: Vec<&SemanticItem>)
        ensures
            exists|ord: Seq<usize>| #[trigger] sorts_stably(ord, most_tags_keys(self.items@)) && derefs(r@) == in_order(
                self.items@,
                ord,
            ).take(if limit <= ord.len() { limit as int } else { ord.len() as int }),
    {
        let mut keys: Vec<i128> = Vec::new();
        let mut i: usize = 0;
        while i < self.items.len()
            invariant
                i <= self.items@.len(),
                key_view(keys@) == most_tags_keys(self.items@).take(i as int),
            decreases self.items.len() - i,
        {
            let t = self.items[i].tags.len() as i128;
            let ghost kb = key_view(keys@);
            keys.push(-t);
            assert(key_view(keys@) =~= kb.push((-t) as int));
            assert(most_tags_keys(self.items@).take(i + 1) =~= most_tags_keys(self.items@).take(i as int).push(most_tags_keys(self.items@)[i as int]));
            assert(key_view(keys@) =~= most_tags_keys(self.items@).take(i + 1));
            i = i + 1;
        }
        assert(most_tags_keys(self.items@).take(self.items@.len() as int) =~= most_tags_keys(self.items@));
        let ord = stable_order(&keys);
        let all = self.pick_in_order(&ord);
        let mut out: Vec<&SemanticItem> = Vec::new();
        let mut j: usize = 0;
        while j < all.len() && j < limit
            invariant
                j <= all@.len(),
                j <= limit,
                derefs(out@) == derefs(all@).take(j as int),
            decreases all.len() - j,
        {
            let ghost before = derefs(out@);
            out.push(all[j]);
            assert(derefs(out@) =~= before.push(*all@[j as int]));
            assert(derefs(all@).take(j + 1) =~= derefs(all@).take(j as int).push(derefs(all@)[j as int]));
            j = j + 1;
        }
        proof {
            assert(sorts_stably(ord@, most_tags_keys(self.items@)));
            assert(derefs(all@).len() == ord@.len());
            assert(derefs(out@) == in_order(self.items@, ord@).take(if limit <= ord@.len() { limit as int } else { ord@.len() as int }));
        }
        out
    }

    /// For each category, in order of first appearance, the number of items in it.
    pub fn count_items_by_category(&self) -> (r: Vec<(String, usize)>)
        ensures
            forall|i: int, j: int| 0 <= i < j < r@.len() ==> r@[i].0@ != r@[j].0@,
            forall|y: Seq<char>| #[trigger] category_present(self.items@, y) <==> exists|i: int| 0 <= i < r@.len() && #[trigger] r@[i].0@ == y,
            forall|i: int| 0 <= i < r@.len() ==> (#[trigger] r@[i]).1 == self.items@.filter(in_category(r@[i].0@)).len(),
    {
        let ghost items = self.items@;
        let mut out: Vec<(String, usize)> = Vec::new();
        let mut k: usize = 0;
        while k < self.items.len()
            invariant
                items == self.items@,
                k <= items.len(),
                forall|i: int, j: int| 0 <= i < j < out@.len() ==> out@[i].0@ != out@[j].0@,
                forall|y: Seq<char>| #[trigger] category_present(items.take(k as int), y) <==> exists|i: int| 0 <= i < out@.len() && #[trigger] out@[i].0@ == y,
                forall|i: int| 0 <= i < out@.len() ==> (#[trigger] out@[i]).1 == items.take(k as int).filter(in_category(out@[i].0@)).len(),
            decreases items.len() - k,
        {
            let c = &self.items[k].category;
            let ghost t = items.take(k as int);
            let ghost t1 = items.take(k + 1);
            proof {
                assert(t1.drop_last() =~= t);
                assert(t1.last() == items[k as int]);
            }
            let mut p: usize = 0;
            while p < out.len() && !str_eq(out[p].0.as_str(), c.as_str())
                invariant
                    p <= out@.len(),
                    forall|i: int| 0 <= i < p ==> (#[trigger] out@[i]).0@ != c@,
                decreases out.len() - p,
            {
                p = p + 1;
            }
            let ghost o0 = out@;
            if p < out.len() {
                let n = out[p].1;
                proof {
                    lemma_filter_step(items, k as int, in_category(c@));
                    assert(n == t.filter(in_category(c@)).len());
                    assert(t.filter(in_category(c@)).len() < items.len()) by {
                        t.lemma_filter_len(in_category(c@));
                    }
                }
                let name = out[p].0.clone();
                out.set(p, (name, n + 1));
            } else {
                proof {
                    lemma_filter_step(items, k as int, in_category(c@));
                    assert(!category_present(t, c@));
                    assert(t.filter(in_category(c@)).len() == 0) by {
                        if t.filter(in_category(c@)).len() > 0 {
                            crate::seqs::lemma_filter_members(t, in_category(c@));
                            let x = t.filter(in_category(c@))[0];
                            let j = choose|j: int| 0 <= j < t.len() && t[j] == x;
                            assert(category_present(t, c@));
                        }
                    }
                }
                out.push((c.clone(), 1));
            }
            proof {
                assert forall|i: int, j: int| 0 <= i < j < out@.len() implies out@[i].0@ != out@[j].0@ by {
                    if j == o0.len() {
                        assert(out@[i] == o0[i]);
                    } else if i == p as int && p < o0.len() {
                        assert(out@[j] == o0[j]);
                    } else if j == p as int && p < o0.len() {
                        assert(out@[i] == o0[i]);
                    } else {
                        assert(out@[i] == o0[i] && out@[j] == o0[j]);
                    }
                }
                assert forall|y: Seq<char>| #[trigger] category_present(t1, y) <==> exists|i: int| 0 <= i < out@.len() && #[trigger] out@[i].0@ == y by {
                    if category_present(t1, y) {
                        let m = choose|m: int| 0 <= m < t1.len() && (#[trigger] t1[m]).category@ == y;
                        if m < k {
                            assert(t[m] == t1[m]);
                            assert(category_present(t, y));
                            let i = choose|i: int| 0 <= i < o0.len() && #[trigger] o0[i].0@ == y;
                            assert(out@[i].0@ == y);
                        } else {
                            assert(out@[p as int].0@ == y);
                        }
                    }
                    if exists|i: int| 0 <= i < out@.len() && #[trigger] out@[i].0@ == y {
                        let i = choose|i: int| 0 <= i < out@.len() && #[trigger] out@[i].0@ == y;
                        if i == p as int {
                            assert(t1[k as int].category@ == y);
                        } else {
                            assert(out@[i] == o0[i]);
                            assert(category_present(t, y));
                            let m = choose|m: int| 0 <= m < t.len() && (#[trigger] t[m]).category@ == y;
                            assert(t1[m] == t[m]);
                        }
                    }
                }
                assert forall|i: int| 0 <= i < out@.len() implies (#[trigger] out@[i]).1 == t1.filter(in_category(out@[i].0@)).len() by {
                    lemma_filter_step(items, k as int, in_category(out@[i].0@));
                    if i != p as int {
                        assert(out@[i] == o0[i]);
                        assert(out@[i].0@ != c@);
                    }
                }
            }
            k = k + 1;
        }
        proof {
            lemma_take_full(items);
        }
        out
    }
}


/// Being the same kind of relationship is an equivalence.
proof fn lemma_same_kind(a: SemanticRelationshipType, b: SemanticRelationshipType, c: SemanticRelationshipType)
    ensures
        same_relationship_type(a, a),
        same_relationship_type(a, b) == same_relationship_type(b, a),
        same_relationship_type(a, b) && same_relationship_type(b, c) ==> same_relationship_type(a, c),
{
}

/// Keeps the relationships of the kind `t`.
pub open spec fn of_relationship_type(t: SemanticRelationshipType) -> spec_fn(SemanticRelationship) -> bool {
    |r: SemanticRelationship| same_relationship_type(r.relationship_type, t)
}

/// Some relationship is of the kind `t`.
pub open spec fn relationship_type_present(rels: Seq<SemanticRelationship>, t: SemanticRelationshipType) -> bool {
    exists|i: int| 0 <= i < rels.len() && same_relationship_type((#[trigger] rels[i]).relationship_type, t)
}

/// The kind `t` is listed in `counts`.
pub open spec fn kind_listed(counts: Seq<(SemanticRelationshipType, usize)>, t: SemanticRelationshipType) -> bool {
    exists|i: int| 0 <= i < counts.len() && same_relationship_type((#[trigger] counts[i]).0, t)
}

/// For each kind of relationship in `relationships`, in order of first appearance, the
/// number of relationships of that kind.
pub fn count_relationship_kinds(relationships: &[SemanticRelationship]) -> (r: Vec<(SemanticRelationshipType, usize)>)
    ensures
        forall|i: int, j: int| 0 <= i < j < r@.len() ==> !same_relationship_type(r@[i].0, r@[j].0),
        forall|t: SemanticRelationshipType| #[trigger] relationship_type_present(relationships@, t) <==> kind_listed(r@, t),
        forall|i: int| 0 <= i < r@.len() ==> (#[trigger] r@[i]).1 == relationships@.filter(of_relationship_type(r@[i].0)).len(),
{
    let ghost rels = relationships@;
    let mut out: Vec<(SemanticRelationshipType, usize)> = Vec::new();
    let mut k: usize = 0;
    while k < relationships.len()
        invariant
            rels == relationships@,
            k <= rels.len(),
            forall|i: int, j: int| 0 <= i < j < out@.len() ==> !same_relationship_type(out@[i].0, out@[j].0),
            forall|t: SemanticRelationshipType| #[trigger] relationship_type_present(rels.take(k as int), t) <==> kind_listed(out@, t),
            forall|i: int| 0 <= i < out@.len() ==> (#[trigger] out@[i]).1 == rels.take(k as int).filter(of_relationship_type(out@[i].0)).len(),
        decreases rels.len() - k,
    {
        let c = &relationships[k].relationship_type;
        let ghost t = rels.take(k as int);
        let ghost t1 = rels.take(k + 1);
        proof {
            assert(t1.drop_last() =~= t);
            assert(t1.last() == rels[k as int]);
        }
        let mut p: usize = 0;
        while p < out.len() && !same_type(&out[p].0, c)
            invariant
                p <= out@.len(),
                forall|i: int| 0 <= i < p ==> !same_relationship_type((#[trigger] out@[i]).0, *c),
            decreases out.len() - p,
        {
            p = p + 1;
        }
        let ghost o0 = out@;
        if p < out.len() {
            let n = out[p].1;
            proof {
                assert(of_relationship_type(o0[p as int].0) =~= of_relationship_type(*c));
                lemma_filter_step(rels, k as int, of_relationship_type(*c));
                assert(n == t.filter(of_relationship_type(*c)).len());
                assert(t.filter(of_relationship_type(*c)).len() < rels.len()) by {
                    t.lemma_filter_len(of_relationship_type(*c));
                }
            }
            let kind = out[p].0.copy();
            out.set(p, (kind, n + 1));
            proof {
                assert(of_relationship_type(out@[p as int].0) =~= of_relationship_type(*c));
            }
        } else {
            proof {
                lemma_filter_step(rels, k as int, of_relationship_type(*c));
                assert(!relationship_type_present(t, *c)) by {
                    if relationship_type_present(t, *c) {
                        assert(kind_listed(o0, *c));
                        let i = choose|i: int| 0 <= i < o0.len() && same_relationship_type((#[trigger] o0[i]).0, *c);
                        assert(!same_relationship_type(o0[i].0, *c));
                    }
                }
                assert(t.filter(of_relationship_type(*c)).len() == 0) by {
                    if t.filter(of_relationship_type(*c)).len() > 0 {
                        crate::seqs::lemma_filter_members(t, of_relationship_type(*c));
                        let x = t.filter(of_relationship_type(*c))[0];
                        let j = choose|j: int| 0 <= j < t.len() && t[j] == x;
                        assert(relationship_type_present(t, *c));
                    }
                }
            }
            let kind = c.copy();
            out.push((kind, 1));
            proof {
                assert(of_relationship_type(out@[p as int].0) =~= of_relationship_type(*c));
            }
        }
        proof {
            assert forall|i: int, j: int| 0 <= i < j < out@.len() implies !same_relationship_type(out@[i].0, out@[j].0) by {
                if j == o0.len() {
                    assert(out@[i] == o0[i]);
                    lemma_same_kind(out@[i].0, out@[j].0, *c);
                } else if i == p as int && p < o0.len() {
                    assert(out@[j] == o0[j]);
                    lemma_same_kind(out@[i].0, o0[i].0, out@[j].0);
                    lemma_same_kind(o0[i].0, out@[i].0, out@[j].0);
                } else if j == p as int && p < o0.len() {
                    assert(out@[i] == o0[i]);
                    lemma_same_kind(out@[i].0, out@[j].0, o0[j].0);
                    lemma_same_kind(o0[j].0, out@[j].0, out@[i].0);
                } else {
                    assert(out@[i] == o0[i] && out@[j] == o0[j]);
                }
            }
            assert forall|y: SemanticRelationshipType| #[trigger] relationship_type_present(t1, y) <==> kind_listed(out@, y) by {
                if relationship_type_present(t1, y) {
                    let m = choose|m: int| 0 <= m < t1.len() && same_relationship_type((#[trigger] t1[m]).relationship_type, y);
                    if m < k {
                        assert(t[m] == t1[m]);
                        assert(relationship_type_present(t, y));
                        assert(kind_listed(o0, y));
                        let i = choose|i: int| 0 <= i < o0.len() && same_relationship_type((#[trigger] o0[i]).0, y);
                        if i == p as int {
                            assert(same_relationship_type(out@[i].0, y));
                        } else {
                            assert(out@[i] == o0[i]);
                        }
                    } else {
                        assert(same_relationship_type(out@[p as int].0, y));
                    }
                }
                if kind_listed(out@, y) {
                    let i = choose|i: int| 0 <= i < out@.len() && same_relationship_type((#[trigger] out@[i]).0, y);
                    if i == p as int {
                        assert(same_relationship_type(t1[k as int].relationship_type, y));
                    } else {
                        assert(out@[i] == o0[i]);
                        assert(kind_listed(o0, y));
                        assert(relationship_type_present(t, y));
                        let m = choose|m: int| 0 <= m < t.len() && same_relationship_type((#[trigger] t[m]).relationship_type, y);
                        assert(t1[m] == t[m]);
                    }
                }
            }
            assert forall|i: int| 0 <= i < out@.len() implies (#[trigger] out@[i]).1 == t1.filter(of_relationship_type(out@[i].0)).len() by {
                lemma_filter_step(rels, k as int, of_relationship_type(out@[i].0));
                if i != p as int {
                    assert(out@[i] == o0[i]);
                    if p < o0.len() {
                        if i < p {
                            assert(!same_relationship_type(o0[i].0, o0[p as int].0));
                        } else {
                            assert(!same_relationship_type(o0[p as int].0, o0[i].0));
                        }
                        lemma_same_kind(o0[i].0, o0[p as int].0, *c);
                        lemma_same_kind(o0[i].0, *c, o0[p as int].0);
                        lemma_same_kind(o0[p as int].0, *c, o0[i].0);
                    }
                    assert(!same_relationship_type(out@[i].0, *c));
                }
            }
        }
        k = k + 1;
    }
    proof {
        lemma_take_full(rels);
    }
    out
}

impl SemanticMemory {
    /// For each kind of relationship, in order of first appearance, the number of
    /// relationships of that kind.
    pub fn count_relationships_by_type(&self) -> (r: Vec<(SemanticRelationshipType, usize)>)
        ensures
            forall|i: int, j: int| 0 <= i < j < r@.len() ==> !same_relationship_type(r@[i].0, r@[j].0),
            forall|t: SemanticRelationshipType| #[trigger] relationship_type_present(self.relationships@, t) <==> kind_listed(r@, t),
            forall|i: int| 0 <= i < r@.len() ==> (#[trigger] r@[i]).1 == self.relationships@.filter(of_relationship_type(r@[i].0)).len(),
    {
        count_relationship_kinds(self.relationships.as_slice())
    }
}

/// The fields of an item a search can match in.
#[derive(Clone, Copy, Debug, PartialEq, Eq, Structural)]
pub enum SearchField {
    /// The item's content.
    Content,
    /// The item's category.
    Category,
    /// One of the item's tags.
    Tag,
    /// A metadata key.
    MetadataKey,
    /// A metadata value.
    MetadataValue,
}

} // verus!
