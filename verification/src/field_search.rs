//! The fields of each item in which a query occurs, ignoring case: the ground of
//! the multi-field search, whose weights and order are floating point.

use vstd::prelude::*;
use crate::item::SemanticItem;
use crate::json::JsonData;
use crate::memory::SemanticMemory;
use crate::meta_quality::{entry_is_live, live};
use crate::queries::SearchField;
use crate::text::{chars_of, contains_chars, has_substring, lowercase, occurs_at, occurs_at_exec, to_lowercase};

verus! {

/// How often `needle` occurs in `hay` from position `i` on, counting from the left
/// matches that do not overlap; the empty needle occurs at every position, the end
/// included.
pub open spec fn occurrences_from(hay: Seq<char>, needle: Seq<char>, i: int) -> nat
    decreases hay.len() - i,
{
    if i < 0 || i > hay.len() {
        0
    } else if needle.len() == 0 {
        (hay.len() - i + 1) as nat
    } else if i + needle.len() > hay.len() {
        0
    } else if occurs_at(hay, needle, i) {
        1 + occurrences_from(hay, needle, i + needle.len())
    } else {
        occurrences_from(hay, needle, i + 1)
    }
}

/// A hit in the content: the lower-cased string content holds `q`, with the number
/// of times it occurs there. Only string content shorter than the largest size is
/// searched.
pub open spec fn content_hits(c: JsonData, q: Seq<char>) -> Seq<(SearchField, usize, usize)> {
    if c is Str && lowercase(c->Str_0).len() < usize::MAX && has_substring(lowercase(c->Str_0), q) {
        seq![(SearchField::Content, 0usize, occurrences_from(lowercase(c->Str_0), q, 0) as usize)]
    } else {
        Seq::empty()
    }
}

/// A hit in the category when its lower-cased form holds `q`.
pub open spec fn category_hits(category: Seq<char>, q: Seq<char>) -> Seq<(SearchField, usize, usize)> {
    if has_substring(lowercase(category), q) {
        seq![(SearchField::Category, 0usize, 1usize)]
    } else {
        Seq::empty()
    }
}

/// A hit, with its position, for each of the first `n` tags whose lower-cased form
/// holds `q`.
pub open spec fn tag_hits(tags: Seq<String>, q: Seq<char>, n: int) -> Seq<(SearchField, usize, usize)>
    decreases n,
{
    if n <= 0 {
        Seq::empty()
    } else {
        tag_hits(tags, q, n - 1) + if has_substring(lowercase(tags[n - 1]@), q) {
            seq![(SearchField::Tag, (n - 1) as usize, 1usize)]
        } else {
            Seq::empty()
        }
    }
}

/// A hit, with its position, for each of the first `n` metadata entries that holds
/// its key's value and whose lower-cased key holds `q`.
pub open spec fn key_hits(m: Seq<(String, crate::json::JsonValue)>, q: Seq<char>, n: int) -> Seq<
    (SearchField, usize, usize),
>
    decreases n,
{
    if n <= 0 {
        Seq::empty()
    } else {
        key_hits(m, q, n - 1) + if live(m, n - 1) && has_substring(lowercase(m[n - 1].0@), q) {
            seq![(SearchField::MetadataKey, (n - 1) as usize, 1usize)]
        } else {
            Seq::empty()
        }
    }
}

/// The hits of an item, in the order content, category, tags, metadata keys.
pub open spec fn item_hits(it: SemanticItem, q: Seq<char>) -> Seq<(SearchField, usize, usize)> {
    content_hits(it.content@, q) + category_hits(it.category@, q) + tag_hits(it.tags@, q, it.tags@.len() as int)
        + key_hits(it.metadata@, q, it.metadata@.len() as int)
}

/// How often `needle` occurs in `hay`, matches counted from the left without overlap.
fn count_occurrences(hay: &Vec<char>, needle: &Vec<char>) -> (r: usize)
    requires
        hay@.len() < usize::MAX,
    ensures
        r == occurrences_from(hay@, needle@, 0),
{
    if needle.len() == 0 {
        return hay.len() + 1;
    }
    let mut i: usize = 0;
    let mut count: usize = 0;
    while needle.len() <= hay.len() - i
        invariant
            0 < needle@.len(),
            i <= hay@.len(),
            count <= i,
            count + occurrences_from(hay@, needle@, i as int) == occurrences_from(hay@, needle@, 0),
        decreases hay.len() - i,
    {
        if occurs_at_exec(hay, needle, i) {
            count = count + 1;
            i = i + needle.len();
        } else {
            i = i + 1;
        }
    }
    count
}

/// Whether the lower-cased `text` holds `q`.
fn lowered_holds(text: &str, q: &Vec<char>) -> (r: bool)
    ensures
        r == has_substring(lowercase(text@), q@),
{
    let t = chars_of(to_lowercase(text).as_str());
    contains_chars(&t, q)
}

/// The hits of one item for the lower-cased query `q`.
fn item_field_matches(it: &SemanticItem, q: &Vec<char>) -> (r: Vec<(SearchField, usize, usize)>)
    ensures
        r@ == item_hits(*it, q@),
{
    let mut out: Vec<(SearchField, usize, usize)> = Vec::new();
    match it.content.as_str() {
        Some(s) => {
            let t = chars_of(to_lowercase(s).as_str());
            if t.len() < usize::MAX && contains_chars(&t, q) {
                let n = count_occurrences(&t, q);
                out.push((SearchField::Content, 0, n));
            }
        },
        None => {},
    }
    assert(out@ == content_hits(it.content@, q@));
    if lowered_holds(it.category.as_str(), q) {
        out.push((SearchField::Category, 0, 1));
    }
    let ghost head = content_hits(it.content@, q@) + category_hits(it.category@, q@);
    assert(out@ == head);
    let mut j: usize = 0;
    while j < it.tags.len()
        invariant
            j <= it.tags@.len(),
            out@ == head + tag_hits(it.tags@, q@, j as int),
        decreases it.tags.len() - j,
    {
        if lowered_holds(it.tags[j].as_str(), q) {
            out.push((SearchField::Tag, j, 1));
        }
        j = j + 1;
    }
    let ghost mid = head + tag_hits(it.tags@, q@, it.tags@.len() as int);
    let mut k: usize = 0;
    while k < it.metadata.len()
        invariant
            k <= it.metadata@.len(),
            out@ == mid + key_hits(it.metadata@, q@, k as int),
        decreases it.metadata.len() - k,
    {
        if entry_is_live(&it.metadata, k) && lowered_holds(it.metadata[k].0.as_str(), q) {
            out.push((SearchField::MetadataKey, k, 1));
        }
        k = k + 1;
    }
    out
}

impl SemanticMemory {
    /// For each item, in order, where the query occurs, ignoring case: in the string
    /// content (with how often, matches counted from the left without overlap), in
    /// the category, in the tags and in the metadata keys (each with its position).
    /// Each hit is the field, the position and the count (1 but for the content).
    pub fn field_matches(&self, query: &str) -> (r: Vec<Vec<(SearchField, usize, usize)>>)
        ensures
            r@.len() == self.items@.len(),
            forall|i: int| 0 <= i < r@.len() ==> (#[trigger] r@[i])@ == item_hits(self.items@[i], lowercase(query@)),
    {
        let q = chars_of(to_lowercase(query).as_str());
        let mut out: Vec<Vec<(SearchField, usize, usize)>> = Vec::new();
        let mut i: usize = 0;
        while i < self.items.len()
            invariant
                i <= self.items@.len(),
                q@ == lowercase(query@),
                out@.len() == i,
                forall|j: int| 0 <= j < i ==> (#[trigger] out@[j])@ == item_hits(self.items@[j], lowercase(query@)),
            decreases self.items.len() - i,
        {
            out.push(item_field_matches(&self.items[i], &q));
            i = i + 1;
        }
        out
    }
}

} // verus!
