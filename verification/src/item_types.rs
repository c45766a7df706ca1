//! Kinds of semantic items, how content is classified into them, and counts over them.

use vstd::prelude::*;
use crate::confidence::ConfidenceLevel;
use crate::error::MemoryError;
use crate::json::{first_key_index, JsonData, JsonValue};
use crate::relationship::SemanticRelationshipType;
use crate::text::{
    ascii_lowered, ascii_only, has_prefix, has_substring, has_suffix, join2, lowercase, owned, str_contains, str_ends_with,
    str_eq, str_starts_with, to_lowercase,
};

verus! {

/// The kind of knowledge an item holds.
#[derive(Clone, Copy, Debug, PartialEq, Eq, Structural, Hash)]
pub enum SemanticItemType {
    /// Concept (entity, object, idea)
    Concept,
    /// Fact (statement about concepts)
    Fact,
    /// Rule (logical rule or pattern)
    Rule,
    /// Category (classification or grouping)
    Category,
}

/// The lower-case name of a type.
pub open spec fn kind_name(t: SemanticItemType) -> Seq<char> {
    match t {
        SemanticItemType::Concept => "concept"@,
        SemanticItemType::Fact => "fact"@,
        SemanticItemType::Rule => "rule"@,
        SemanticItemType::Category => "category"@,
    }
}

/// The type whose name is the lower-cased `s`, if any.
pub open spec fn parse_type(s: Seq<char>) -> Option<SemanticItemType> {
    let l = lowercase(s);
    if l == "concept"@ {
        Some(SemanticItemType::Concept)
    } else if l == "fact"@ {
        Some(SemanticItemType::Fact)
    } else if l == "rule"@ {
        Some(SemanticItemType::Rule)
    } else if l == "category"@ {
        Some(SemanticItemType::Category)
    } else {
        None
    }
}

/// Position of a type in the order Concept, Fact, Rule, Category.
pub open spec fn type_index(t: SemanticItemType) -> int {
    match t {
        SemanticItemType::Concept => 0,
        SemanticItemType::Fact => 1,
        SemanticItemType::Rule => 2,
        SemanticItemType::Category => 3,
    }
}

/// The type at position `i` of the order Concept, Fact, Rule, Category.
pub open spec fn type_at(i: int) -> SemanticItemType {
    if i == 0 {
        SemanticItemType::Concept
    } else if i == 1 {
        SemanticItemType::Fact
    } else if i == 2 {
        SemanticItemType::Rule
    } else {
        SemanticItemType::Category
    }
}

/// Whether items of type `t` may carry relationships of kind `r`.
pub open spec fn allows_relationship(t: SemanticItemType, r: SemanticRelationshipType) -> bool {
    match (t, r) {
        (SemanticItemType::Concept, _) => true,
        (_, SemanticRelationshipType::Custom(_)) => true,
        (SemanticItemType::Category, SemanticRelationshipType::IsA) => true,
        (SemanticItemType::Category, SemanticRelationshipType::PartOf) => true,
        (SemanticItemType::Category, SemanticRelationshipType::HasA) => true,
        (SemanticItemType::Fact, SemanticRelationshipType::RelatedTo) => true,
        (SemanticItemType::Fact, SemanticRelationshipType::Causes) => true,
        (SemanticItemType::Rule, SemanticRelationshipType::Causes) => true,
        (SemanticItemType::Rule, SemanticRelationshipType::RelatedTo) => true,
        _ => false,
    }
}

impl SemanticItemType {
    /// The lower-case name of the type.
    pub fn as_str(&self) -> (r: &'static str)
        ensures
            r@ == kind_name(*self),
    {
        match self {
            SemanticItemType::Concept => "concept",
            SemanticItemType::Fact => "fact",
            SemanticItemType::Rule => "rule",
            SemanticItemType::Category => "category",
        }
    }

    /// The lower-case name of the type, as an owned string.
    pub fn to_string(&self) -> (r: String)
        ensures
            r@ == kind_name(*self),
    {
        owned(self.as_str())
    }

    /// Parses a type name, ignoring case; other text is a conversion error.
    pub fn from_string(s: &str) -> (r: Result<SemanticItemType, MemoryError>)
        ensures
            match parse_type(s@) {
                Some(t) => r == Ok::<SemanticItemType, MemoryError>(t),
                None => r matches Err(MemoryError::ConversionError(m))
                    && m@ == "Invalid semantic item type: "@ + s@,
            },
            ascii_only(s@) ==> lowercase(s@) == ascii_lowered(s@),
    {
        let l = to_lowercase(s);
        if str_eq(l.as_str(), "concept") {
            Ok(SemanticItemType::Concept)
        } else if str_eq(l.as_str(), "fact") {
            Ok(SemanticItemType::Fact)
        } else if str_eq(l.as_str(), "rule") {
            Ok(SemanticItemType::Rule)
        } else if str_eq(l.as_str(), "category") {
            Ok(SemanticItemType::Category)
        } else {
            Err(MemoryError::ConversionError(join2("Invalid semantic item type: ", s)))
        }
    }

    /// All item types, in the order Concept, Fact, Rule, Category.
    pub fn all() -> (r: [SemanticItemType; 4])
        ensures
            r@ == seq![
                SemanticItemType::Concept,
                SemanticItemType::Fact,
                SemanticItemType::Rule,
                SemanticItemType::Category,
            ],
    {
        [
            SemanticItemType::Concept,
            SemanticItemType::Fact,
            SemanticItemType::Rule,
            SemanticItemType::Category,
        ]
    }

    /// A short description of the type.
    pub fn description(&self) -> (r: &'static str)
        ensures
            r@ == match *self {
                SemanticItemType::Concept => "Entity, object, or idea"@,
                SemanticItemType::Fact => "Statement about concepts"@,
                SemanticItemType::Rule => "Logical rule or pattern"@,
                SemanticItemType::Category => "Classification or grouping"@,
            },
    {
        match self {
            SemanticItemType::Concept => "Entity, object, or idea",
            SemanticItemType::Fact => "Statement about concepts",
            SemanticItemType::Rule => "Logical rule or pattern",
            SemanticItemType::Category => "Classification or grouping",
        }
    }

    /// Concept or Category.
    pub fn is_structural(&self) -> (r: bool)
        ensures
            r == (*self == SemanticItemType::Concept || *self == SemanticItemType::Category),
    {
        matches!(self, SemanticItemType::Concept | SemanticItemType::Category)
    }

    /// Fact or Rule.
    pub fn is_informational(&self) -> (r: bool)
        ensures
            r == (*self == SemanticItemType::Fact || *self == SemanticItemType::Rule),
    {
        matches!(self, SemanticItemType::Fact | SemanticItemType::Rule)
    }

    /// The confidence a new item of this type starts from: Medium for facts, High otherwise.
    pub fn default_confidence(&self) -> (r: ConfidenceLevel)
        ensures
            r == (if *self == SemanticItemType::Fact {
                ConfidenceLevel::Medium
            } else {
                ConfidenceLevel::High
            }),
    {
        match self {
            SemanticItemType::Concept => ConfidenceLevel::High,
            SemanticItemType::Fact => ConfidenceLevel::Medium,
            SemanticItemType::Rule => ConfidenceLevel::High,
            SemanticItemType::Category => ConfidenceLevel::High,
        }
    }

    /// Whether items of this type may carry relationships of the given kind.
    pub fn can_have_relationship(&self, relationship_type: &SemanticRelationshipType) -> (r: bool)
        ensures
            r == allows_relationship(*self, *relationship_type),
    {
        match (self, relationship_type) {
            (SemanticItemType::Concept, _) => true,
            (_, SemanticRelationshipType::Custom(_)) => true,
            (SemanticItemType::Category, SemanticRelationshipType::IsA) => true,
            (SemanticItemType::Category, SemanticRelationshipType::PartOf) => true,
            (SemanticItemType::Category, SemanticRelationshipType::HasA) => true,
            (SemanticItemType::Fact, SemanticRelationshipType::RelatedTo) => true,
            (SemanticItemType::Fact, SemanticRelationshipType::Causes) => true,
            (SemanticItemType::Rule, SemanticRelationshipType::Causes) => true,
            (SemanticItemType::Rule, SemanticRelationshipType::RelatedTo) => true,
            _ => false,
        }
    }

    /// The relationship kinds suggested for items of this type, in a fixed order.
    pub fn recommended_relationships(&self) -> (r: Vec<SemanticRelationshipType>)
        ensures
            r@ == match *self {
                SemanticItemType::Concept => seq![
                    SemanticRelationshipType::IsA,
                    SemanticRelationshipType::HasA,
                    SemanticRelationshipType::PartOf,
                    SemanticRelationshipType::RelatedTo,
                ],
                SemanticItemType::Category => seq![
                    SemanticRelationshipType::IsA,
                    SemanticRelationshipType::HasA,
                    SemanticRelationshipType::PartOf,
                ],
                SemanticItemType::Fact => seq![
                    SemanticRelationshipType::RelatedTo,
                    SemanticRelationshipType::Causes,
                ],
                SemanticItemType::Rule => seq![
                    SemanticRelationshipType::Causes,
                    SemanticRelationshipType::RelatedTo,
                ],
            },
    {
        match self {
            SemanticItemType::Concept => vec![
                SemanticRelationshipType::IsA,
                SemanticRelationshipType::HasA,
                SemanticRelationshipType::PartOf,
                SemanticRelationshipType::RelatedTo,
            ],
            SemanticItemType::Category => vec![
                SemanticRelationshipType::IsA,
                SemanticRelationshipType::HasA,
                SemanticRelationshipType::PartOf,
            ],
            SemanticItemType::Fact => vec![
                SemanticRelationshipType::RelatedTo,
                SemanticRelationshipType::Causes,
            ],
            SemanticItemType::Rule => vec![
                SemanticRelationshipType::Causes,
                SemanticRelationshipType::RelatedTo,
            ],
        }
    }
}

impl Default for SemanticItemType {
    /// Concept.
    fn default() -> (r: SemanticItemType)
        ensures
            r == SemanticItemType::Concept,
    {
        SemanticItemType::Concept
    }
}

/// Distinct types have distinct names.
pub proof fn lemma_kind_name_distinct(a: SemanticItemType, b: SemanticItemType)
    ensures
        kind_name(a) == kind_name(b) ==> a == b,
{
    reveal_strlit("concept");
    reveal_strlit("fact");
    reveal_strlit("rule");
    reveal_strlit("category");
    if kind_name(a) == kind_name(b) && a != b {
        assert(kind_name(a).len() != kind_name(b).len() || kind_name(a)[0] != kind_name(b)[0]);
    }
}

/// Lower-cased text reads like a rule.
pub open spec fn rule_text(t: Seq<char>) -> bool {
    (has_substring(t, "if "@) && has_substring(t, "then"@)) || (has_substring(t, "when "@)
        && has_substring(t, "do"@)) || has_substring(t, "rule:"@) || has_prefix(t, "always "@)
        || has_prefix(t, "never "@)
}

/// Lower-cased text reads like a fact.
pub open spec fn fact_text(t: Seq<char>) -> bool {
    has_substring(t, " is "@) || has_substring(t, " are "@) || has_substring(t, " has "@)
        || has_substring(t, " have "@) || has_substring(t, " was "@) || has_substring(t, " were "@)
}

/// Lower-cased text reads like a category.
pub open spec fn category_text(t: Seq<char>) -> bool {
    has_substring(t, "category:"@) || has_substring(t, "type:"@) || has_substring(t, "class:"@)
        || has_suffix(t, " category"@) || has_suffix(t, " type"@) || has_suffix(t, " class"@)
}

/// The type text is classified as: rule cues first, then fact cues, then category cues.
pub open spec fn classify_text_spec(text: Seq<char>) -> SemanticItemType {
    let t = lowercase(text);
    if rule_text(t) {
        SemanticItemType::Rule
    } else if fact_text(t) {
        SemanticItemType::Fact
    } else if category_text(t) {
        SemanticItemType::Category
    } else {
        SemanticItemType::Concept
    }
}

/// The object entries `o` hold the key `k`.
pub open spec fn has_key(o: Seq<(String, JsonValue)>, k: Seq<char>) -> bool {
    first_key_index(o, k) is Some
}

/// The type named by the string under the key "type" of the entries `o`, if it parses.
pub open spec fn explicit_type(o: Seq<(String, JsonValue)>) -> Option<SemanticItemType> {
    match first_key_index(o, "type"@) {
        Some(i) => match o[i].1@ {
            JsonData::Str(s) => parse_type(s),
            _ => None,
        },
        None => None,
    }
}

/// The type an object value is classified as: an explicit "type" entry first,
/// then the shape of its keys.
pub open spec fn classify_object_spec(v: JsonValue) -> SemanticItemType {
    match v {
        JsonValue::Object(o) => {
            let e = o@;
            if explicit_type(e) is Some {
                explicit_type(e)->0
            } else if (has_key(e, "condition"@) && has_key(e, "action"@)) || (has_key(e, "if"@)
                && has_key(e, "then"@)) {
                SemanticItemType::Rule
            } else if (has_key(e, "subject"@) && has_key(e, "predicate"@)) || has_key(e, "statement"@)
                || has_key(e, "assertion"@) {
                SemanticItemType::Fact
            } else if has_key(e, "members"@) || has_key(e, "subcategories"@) || has_key(
                e,
                "parent_category"@,
            ) {
                SemanticItemType::Category
            } else {
                SemanticItemType::Concept
            }
        },
        _ => SemanticItemType::Concept,
    }
}

/// The type content is classified as.
pub open spec fn classify_content_spec(v: JsonValue) -> SemanticItemType {
    match v@ {
        JsonData::Str(s) => classify_text_spec(s),
        JsonData::Object(_) => classify_object_spec(v),
        _ => SemanticItemType::Concept,
    }
}

/// 1 when `b` holds, else 0.
pub open spec fn count_if(b: bool) -> int {
    if b {
        1
    } else {
        0
    }
}

/// How many of the cues of type `t` the lower-cased text `l` shows.
pub open spec fn indicator_count(l: Seq<char>, t: SemanticItemType) -> int {
    match t {
        SemanticItemType::Rule => count_if(has_substring(l, "if "@)) + count_if(has_substring(l, "then"@))
            + count_if(has_substring(l, "when "@)) + count_if(has_substring(l, "rule:"@)) + count_if(
            has_prefix(l, "always "@),
        ) + count_if(has_prefix(l, "never "@)),
        SemanticItemType::Fact => count_if(has_substring(l, " is "@)) + count_if(has_substring(l, " are "@))
            + count_if(has_substring(l, " has "@)) + count_if(has_substring(l, " have "@)) + count_if(
            has_substring(l, " was "@),
        ) + count_if(has_substring(l, " were "@)),
        SemanticItemType::Category => count_if(has_substring(l, "category:"@)) + count_if(
            has_substring(l, "type:"@),
        ) + count_if(has_substring(l, "class:"@)) + count_if(has_suffix(l, " category"@)) + count_if(
            has_suffix(l, " type"@),
        ) + count_if(has_suffix(l, " class"@)),
        SemanticItemType::Concept => 0,
    }
}

/// The object entries `o` name their type explicitly.
pub open spec fn has_explicit_type_key(o: Seq<(String, JsonValue)>) -> bool {
    has_key(o, "type"@) || has_key(o, "item_type"@) || has_key(o, "semantic_type"@)
}

/// The confidence given to classifying `content` as `t`.
pub open spec fn classification_confidence_spec(content: JsonValue, t: SemanticItemType) -> ConfidenceLevel {
    match content {
        JsonValue::String(s) => {
            let n = indicator_count(lowercase(s@), t);
            if n == 0 {
                ConfidenceLevel::Low
            } else if n == 1 {
                ConfidenceLevel::Medium
            } else if n == 2 {
                ConfidenceLevel::High
            } else {
                ConfidenceLevel::VeryHigh
            }
        },
        JsonValue::Object(o) => if has_explicit_type_key(o@) {
            ConfidenceLevel::VeryHigh
        } else {
            ConfidenceLevel::High
        },
        _ => ConfidenceLevel::Low,
    }
}

/// The type named by the string under "type" in an object value, if it parses.
fn explicit_type_of(obj: &JsonValue) -> (r: Option<SemanticItemType>)
    requires
        obj is Object,
    ensures
        r == explicit_type(obj->Object_0@),
{
    if let Some(type_value) = obj.get("type") {
        if let Some(type_str) = type_value.as_str() {
            if let Ok(item_type) = SemanticItemType::from_string(type_str) {
                return Some(item_type);
            }
        }
    }
    None
}

fn one_if(b: bool) -> (r: usize)
    ensures
        r as int == count_if(b),
{
    if b {
        1
    } else {
        0
    }
}

/// Classifies content into an item type.
pub struct SemanticItemTypeClassifier;

impl SemanticItemTypeClassifier {
    /// Classifies content: strings by their wording, objects by their keys, anything else
    /// as a concept.
    pub fn classify_content(content: &JsonValue) -> (r: SemanticItemType)
        ensures
            r == classify_content_spec(*content),
    {
        if let Some(text) = content.as_str() {
            Self::classify_text(text)
        } else if content.is_object() {
            Self::classify_object(content)
        } else {
            SemanticItemType::Concept
        }
    }

    /// Classifies text by the cues in its lower-cased form.
    pub fn classify_text(text: &str) -> (r: SemanticItemType)
        ensures
            r == classify_text_spec(text@),
            ascii_only(text@) ==> lowercase(text@) == ascii_lowered(text@),
    {
        let lower = to_lowercase(text);
        let t = lower.as_str();
        if (str_contains(t, "if ") && str_contains(t, "then")) || (str_contains(t, "when ")
            && str_contains(t, "do")) || str_contains(t, "rule:") || str_starts_with(t, "always ")
            || str_starts_with(t, "never ") {
            return SemanticItemType::Rule;
        }
        if str_contains(t, " is ") || str_contains(t, " are ") || str_contains(t, " has ")
            || str_contains(t, " have ") || str_contains(t, " was ") || str_contains(t, " were ") {
            return SemanticItemType::Fact;
        }
        if str_contains(t, "category:") || str_contains(t, "type:") || str_contains(t, "class:")
            || str_ends_with(t, " category") || str_ends_with(t, " type") || str_ends_with(t, " class") {
            return SemanticItemType::Category;
        }
        SemanticItemType::Concept
    }

    /// Classifies an object value by an explicit "type" entry or else by its keys.
    pub fn classify_object(obj: &JsonValue) -> (r: SemanticItemType)
        ensures
            r == classify_object_spec(*obj),
    {
        match obj {
            JsonValue::Object(o) => {
                let explicit = explicit_type_of(obj);
                if let Some(t) = explicit {
                    return t;
                }
                let rule = (obj.contains_key("condition") && obj.contains_key("action")) || (
                obj.contains_key("if") && obj.contains_key("then"));
                let fact = (obj.contains_key("subject") && obj.contains_key("predicate"))
                    || obj.contains_key("statement") || obj.contains_key("assertion");
                let category = obj.contains_key("members") || obj.contains_key("subcategories")
                    || obj.contains_key("parent_category");
                if rule {
                    SemanticItemType::Rule
                } else if fact {
                    SemanticItemType::Fact
                } else if category {
                    SemanticItemType::Category
                } else {
                    SemanticItemType::Concept
                }
            },
            _ => SemanticItemType::Concept,
        }
    }

    /// How confident a classification of `content` as `classified_type` is: for text,
    /// by the number of cues of that type; objects score High, or VeryHigh with an
    /// explicit type key; anything else scores Low.
    pub fn classification_confidence(content: &JsonValue, classified_type: &SemanticItemType) -> (r:
        ConfidenceLevel)
        ensures
            r == classification_confidence_spec(*content, *classified_type),
    {
        match content {
            JsonValue::String(s) => {
                let n = Self::count_type_indicators(s.as_str(), classified_type);
                if n == 0 {
                    ConfidenceLevel::Low
                } else if n == 1 {
                    ConfidenceLevel::Medium
                } else if n == 2 {
                    ConfidenceLevel::High
                } else {
                    ConfidenceLevel::VeryHigh
                }
            },
            JsonValue::Object(_) => {
                if Self::has_explicit_type_field(content) {
                    ConfidenceLevel::VeryHigh
                } else {
                    ConfidenceLevel::High
                }
            },
            _ => ConfidenceLevel::Low,
        }
    }

    /// Counts the cues of `item_type` in the lower-cased text.
    pub fn count_type_indicators(text: &str, item_type: &SemanticItemType) -> (r: usize)
        ensures
            r as int == indicator_count(lowercase(text@), *item_type),
            ascii_only(text@) ==> lowercase(text@) == ascii_lowered(text@),
    {
        let lower = to_lowercase(text);
        let t = lower.as_str();
        match item_type {
            SemanticItemType::Rule => one_if(str_contains(t, "if ")) + one_if(str_contains(t, "then"))
                + one_if(str_contains(t, "when ")) + one_if(str_contains(t, "rule:")) + one_if(
                str_starts_with(t, "always "),
            ) + one_if(str_starts_with(t, "never ")),
            SemanticItemType::Fact => one_if(str_contains(t, " is ")) + one_if(str_contains(t, " are "))
                + one_if(str_contains(t, " has ")) + one_if(str_contains(t, " have ")) + one_if(
                str_contains(t, " was "),
            ) + one_if(str_contains(t, " were ")),
            SemanticItemType::Category => one_if(str_contains(t, "category:")) + one_if(
                str_contains(t, "type:"),
            ) + one_if(str_contains(t, "class:")) + one_if(str_ends_with(t, " category")) + one_if(
                str_ends_with(t, " type"),
            ) + one_if(str_ends_with(t, " class")),
            SemanticItemType::Concept => 0,
        }
    }

    /// Whether an object value holds a "type", "item_type" or "semantic_type" key.
    pub fn has_explicit_type_field(obj: &JsonValue) -> (r: bool)
        ensures
            r == match *obj {
                JsonValue::Object(o) => has_explicit_type_key(o@),
                _ => false,
            },
    {
        match obj {
            JsonValue::Object(_) => obj.contains_key("type") || obj.contains_key("item_type")
                || obj.contains_key("semantic_type"),
            _ => false,
        }
    }
}

/// How many entries of `s` are `t`.
pub open spec fn count_of_type(s: Seq<SemanticItemType>, t: SemanticItemType) -> nat
    decreases s.len(),
{
    if s.len() == 0 {
        0
    } else {
        count_of_type(s.drop_last(), t) + if s.last() == t {
            1nat
        } else {
            0nat
        }
    }
}

/// Counting over one more entry adds that entry's contribution.
pub proof fn lemma_count_of_type_step(s: Seq<SemanticItemType>, i: int, t: SemanticItemType)
    requires
        0 <= i < s.len(),
    ensures
        count_of_type(s.take(i + 1), t) == count_of_type(s.take(i), t) + if s[i] == t {
            1nat
        } else {
            0nat
        },
{
    assert(s.take(i + 1).drop_last() =~= s.take(i));
}

/// A count never exceeds the length of the sequence counted.
pub proof fn lemma_count_of_type_bound(s: Seq<SemanticItemType>, t: SemanticItemType)
    ensures
        count_of_type(s, t) <= s.len(),
    decreases s.len(),
{
    if s.len() > 0 {
        lemma_count_of_type_bound(s.drop_last(), t);
    }
}

/// `i` is the last position holding the largest value of `d`.
pub open spec fn is_last_max(d: Seq<usize>, i: int) -> bool {
    &&& 0 <= i < d.len()
    &&& forall|j: int| 0 <= j < d.len() ==> d[j] <= d[i]
    &&& forall|j: int| i < j < d.len() ==> d[j] < d[i]
}

/// The counts are within half of the even share: |8c - 2n| <= n for each count c of n items.
pub open spec fn balanced_counts(d: Seq<usize>, n: int) -> bool {
    n == 0 || forall|i: int|
        0 <= i < d.len() ==> -n <= 8 * (#[trigger] d[i]) - 2 * n <= n
}

/// How many items of each type a collection holds.
#[derive(Debug, Clone)]
pub struct SemanticItemTypeStatistics {
    /// Number of items counted.
    pub total_items: usize,
    /// Counts in the order Concept, Fact, Rule, Category.
    pub type_distribution: [usize; 4],
    /// The most frequent type (the later type on ties), if anything was counted.
    pub dominant_type: Option<SemanticItemType>,
}

impl SemanticItemTypeStatistics {
    /// Statistics of an empty collection.
    pub fn new() -> (r: SemanticItemTypeStatistics)
        ensures
            r.total_items == 0,
            r.type_distribution@ == seq![0usize, 0usize, 0usize, 0usize],
            r.dominant_type is None,
    {
        SemanticItemTypeStatistics { total_items: 0, type_distribution: [0, 0, 0, 0], dominant_type: None }
    }

    /// Counts the types in `types`; the dominant type is the most frequent one, the
    /// later in the order Concept, Fact, Rule, Category on ties.
    pub fn from_types(types: &[SemanticItemType]) -> (r: SemanticItemTypeStatistics)
        ensures
            r.total_items == types@.len(),
            forall|k: int| 0 <= k < 4 ==> r.type_distribution@[k] == count_of_type(types@, type_at(k)),
            types@.len() == 0 ==> r.dominant_type is None,
            types@.len() > 0 ==> r.dominant_type is Some && is_last_max(
                r.type_distribution@,
                type_index(r.dominant_type->0),
            ),
    {
        if types.len() == 0 {
            return Self::new();
        }
        let mut distribution: [usize; 4] = [0, 0, 0, 0];
        let mut i: usize = 0;
        while i < types.len()
            invariant
                i <= types@.len(),
                forall|k: int| 0 <= k < 4 ==> distribution@[k] == count_of_type(types@.take(i as int), type_at(k)),
            decreases types.len() - i,
        {
            proof {
                assert forall|k: int| 0 <= k < 4 implies count_of_type(types@.take(i + 1), type_at(k))
                    == count_of_type(types@.take(i as int), type_at(k)) + if types@[i as int] == type_at(k) {
                    1nat
                } else {
                    0nat
                } by {
                    lemma_count_of_type_step(types@, i as int, type_at(k));
                }
                assert forall|k: int| 0 <= k < 4 implies count_of_type(types@.take(i as int), type_at(k))
                    <= i by {
                    lemma_count_of_type_bound(types@.take(i as int), type_at(k));
                }
            }
            let index: usize = match types[i] {
                SemanticItemType::Concept => 0,
                SemanticItemType::Fact => 1,
                SemanticItemType::Rule => 2,
                SemanticItemType::Category => 3,
            };
            distribution[index] = distribution[index] + 1;
            i = i + 1;
        }
        assert(types@.take(types@.len() as int) =~= types@);
        let dominant_type = Self::find_dominant_type(&distribution);
        SemanticItemTypeStatistics { total_items: types.len(), type_distribution: distribution, dominant_type }
    }

    /// The type whose count is largest, the later one on ties.
    pub fn find_dominant_type(distribution: &[usize; 4]) -> (r: Option<SemanticItemType>)
        ensures
            r is Some,
            is_last_max(distribution@, type_index(r->0)),
    {
        let mut best: usize = 0;
        let mut k: usize = 1;
        while k < 4
            invariant
                1 <= k <= 4,
                best < k,
                distribution@.len() == 4,
                forall|j: int| 0 <= j < k ==> distribution@[j] <= distribution@[best as int],
                forall|j: int| best < j < k ==> distribution@[j] < distribution@[best as int],
            decreases 4 - k,
        {
            if distribution[k] >= distribution[best] {
                best = k;
            }
            k = k + 1;
        }
        match best {
            0 => Some(SemanticItemType::Concept),
            1 => Some(SemanticItemType::Fact),
            2 => Some(SemanticItemType::Rule),
            _ => Some(SemanticItemType::Category),
        }
    }

    /// Whether no count strays more than half the even share from it.
    pub fn is_balanced(&self) -> (r: bool)
        ensures
            r == balanced_counts(self.type_distribution@, self.total_items as int),
    {
        if self.total_items == 0 {
            return true;
        }
        let n = self.total_items as u128;
        let mut k: usize = 0;
        while k < 4
            invariant
                k <= 4,
                n == self.total_items,
                n > 0,
                self.type_distribution@.len() == 4,
                forall|j: int|
                    0 <= j < k ==> -n <= 8 * (#[trigger] self.type_distribution@[j]) - 2 * n <= n,
            decreases 4 - k,
        {
            let c = self.type_distribution[k] as u128;
            let eight_c = 8 * c;
            let two_n = 2 * n;
            let ok = if eight_c >= two_n {
                eight_c - two_n <= n
            } else {
                two_n - eight_c <= n
            };
            if !ok {
                return false;
            }
            k = k + 1;
        }
        true
    }
}

} // verus!
