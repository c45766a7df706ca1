//! Items to and from JSON objects: the fields an object must have, the defaults of
//! those it may leave out, and the RFC 3339 text of the timestamps.

use vstd::prelude::*;
use crate::clock::{millis_from_rfc3339, now_millis, rfc3339_from_millis, rfc3339_millis, rfc3339_text};
use crate::confidence::{parse_confidence, ConfidenceLevel};
use crate::error::MemoryError;
use crate::item::{SemanticItem, SemanticItemConverter};
use crate::item_types::{kind_name, parse_type, SemanticItemType};
use crate::json::{first_key_index, JsonData, JsonValue};
use crate::meta::{lemma_meta_view_keys, meta_copy, meta_get, meta_view, Metadata};
use crate::order::{insert_sorted_unique, strictly_sorted, text_lt, texts};
use crate::text::owned;

verus! {

/// The value an object holds under `k` (the first entry with that key).
pub open spec fn field(v: JsonValue, k: Seq<char>) -> Option<JsonValue> {
    match v {
        JsonValue::Object(o) => match first_key_index(o@, k) {
            Some(i) => Some(o@[i].1),
            None => None,
        },
        _ => None,
    }
}

/// The text an object holds under `k`, when that is a string.
pub open spec fn text_field(v: JsonValue, k: Seq<char>) -> Option<Seq<char>> {
    match field(v, k) {
        Some(x) => match x@ {
            JsonData::Str(t) => Some(t),
            _ => None,
        },
        None => None,
    }
}

/// The strings among the values, in order.
pub open spec fn string_elements(a: Seq<JsonValue>) -> Seq<Seq<char>>
    decreases a.len(),
{
    if a.len() == 0 {
        Seq::empty()
    } else {
        string_elements(a.drop_last()) + match a.last()@ {
            JsonData::Str(t) => seq![t],
            _ => Seq::empty(),
        }
    }
}

/// The tags an object lists: the strings of its "tags" array.
pub open spec fn tags_field(v: JsonValue) -> Seq<Seq<char>> {
    match field(v, "tags"@) {
        Some(JsonValue::Array(a)) => string_elements(a@),
        _ => Seq::empty(),
    }
}

/// The confidence an object names, Medium when it names none it knows.
pub open spec fn confidence_field(v: JsonValue) -> ConfidenceLevel {
    match text_field(v, "confidence"@) {
        Some(t) => match parse_confidence(t) {
            Some(c) => c,
            None => ConfidenceLevel::Medium,
        },
        None => ConfidenceLevel::Medium,
    }
}

/// The timestamp text under `k` is there and chrono refuses it.
pub open spec fn bad_time(v: JsonValue, k: Seq<char>) -> bool {
    match text_field(v, k) {
        Some(t) => rfc3339_millis(t) is None,
        None => false,
    }
}

/// The metadata an object holds: the entries of its "metadata" object.
pub open spec fn metadata_field(v: JsonValue) -> Map<Seq<char>, JsonData> {
    match field(v, "metadata"@) {
        Some(JsonValue::Object(o)) => meta_view(o@),
        _ => Map::empty(),
    }
}

/// The entries list the map's keys once each, in rising order, with their values.
pub open spec fn sorted_listing(entries: Seq<(Seq<char>, JsonData)>, m: Map<Seq<char>, JsonData>) -> bool {
    &&& forall|i: int, j: int| 0 <= i < j < entries.len() ==> text_lt(entries[i].0, entries[j].0)
    &&& forall|i: int| 0 <= i < entries.len() ==> m.contains_key(#[trigger] entries[i].0) && m[entries[i].0]
        == entries[i].1
    &&& forall|k: Seq<char>| #[trigger] m.contains_key(k) ==> exists|i: int| 0 <= i < entries.len() && entries[i].0 == k
}

/// The object `to_value` writes for an item, with the given timestamp texts and
/// metadata listing; its keys come in rising order, as a JSON map keeps them.
pub open spec fn item_object(
    item: SemanticItem,
    created: Seq<char>,
    updated: Seq<char>,
    meta: Seq<(Seq<char>, JsonData)>,
) -> JsonData {
    JsonData::Object(
        seq![
            ("category"@, JsonData::Str(item.category@)),
            ("confidence"@, JsonData::Str(item.confidence.spec_name())),
            ("content"@, item.content@),
            ("created_at"@, JsonData::Str(created)),
            ("id"@, JsonData::Str(item.id@)),
            ("item_type"@, JsonData::Str(kind_name(item.item_type))),
            ("metadata"@, JsonData::Object(meta)),
            ("tags"@, JsonData::Array(item.tag_view().map_values(|t: Seq<char>| JsonData::Str(t)))),
            ("updated_at"@, JsonData::Str(updated)),
        ],
    )
}

/// The object has a string id and the name of a known item type.
pub open spec fn readable_prefix(v: JsonValue) -> bool {
    &&& v is Object
    &&& text_field(v, "id"@) is Some
    &&& text_field(v, "item_type"@) is Some
    &&& parse_type(text_field(v, "item_type"@)->0) is Some
}

/// `from_value` accepts the object: it has a string id, a known item type, and any
/// timestamp texts it holds are ones chrono reads.
pub open spec fn readable(v: JsonValue) -> bool {
    readable_prefix(v) && !bad_time(v, "created_at"@) && !bad_time(v, "updated_at"@)
}

/// `item` is what `from_value` reads from the object `v`: its fields, or their
/// defaults where `v` leaves them out (a missing timestamp is left open, as the
/// current time is taken for it).
pub open spec fn read_back(v: JsonValue, item: SemanticItem) -> bool {
    let t = parse_type(text_field(v, "item_type"@)->0)->0;
    &&& item.id@ == text_field(v, "id"@)->0
    &&& item.item_type == t
    &&& item.category@ == (match text_field(v, "category"@) {
        Some(c) => c,
        None => kind_name(t),
    })
    &&& item.content@ == (match field(v, "content"@) {
        Some(c) => c@,
        None => JsonData::Null,
    })
    &&& item.tag_view() == tags_field(v)
    &&& item.confidence == confidence_field(v)
    &&& (text_field(v, "created_at"@) matches Some(s) ==> item.created_at == rfc3339_millis(s)->0)
    &&& (text_field(v, "updated_at"@) matches Some(s) ==> item.updated_at == rfc3339_millis(s)->0)
    &&& item.meta() == metadata_field(v)
}

/// A conversion error with the given message.
pub open spec fn conversion_error(r: Result<SemanticItem, MemoryError>, m: Seq<char>) -> bool {
    r matches Err(MemoryError::ConversionError(x)) && x@ == m
}

fn conversion_err(msg: &str) -> (r: MemoryError)
    ensures
        r matches MemoryError::ConversionError(x) && x@ == msg@,
{
    MemoryError::ConversionError(owned(msg))
}

/// The strings of the array, in order.
fn strings_of(a: &Vec<JsonValue>) -> (r: Vec<String>)
    ensures
        r@.map_values(|s: String| s@) == string_elements(a@),
{
    let mut out: Vec<String> = Vec::new();
    let mut i: usize = 0;
    while i < a.len()
        invariant
            i <= a@.len(),
            out@.map_values(|s: String| s@) == string_elements(a@.take(i as int)),
        decreases a.len() - i,
    {
        assert(a@.take(i + 1).drop_last() =~= a@.take(i as int));
        let ghost before = out@;
        match a[i].as_str() {
            Some(t) => {
                out.push(owned(t));
            },
            None => {},
        }
        assert(out@.map_values(|s: String| s@) =~= string_elements(a@.take(i + 1)));
        i = i + 1;
    }
    assert(a@.take(a@.len() as int) =~= a@);
    out
}

/// The metadata as object entries, keys in rising order.
fn sorted_metadata(m: &Metadata) -> (r: Vec<(String, JsonValue)>)
    ensures
        sorted_listing(r@.map_values(|e: (String, JsonValue)| (e.0@, e.1@)), meta_view(m@)),
{
    let mut keys: Vec<String> = Vec::new();
    let mut i: usize = 0;
    while i < m.len()
        invariant
            i <= m@.len(),
            strictly_sorted(texts(keys@)),
            forall|y: Seq<char>| #[trigger] texts(keys@).contains(y) <==> exists|j: int| 0 <= j < i && m@[j].0@ == y,
        decreases m.len() - i,
    {
        insert_sorted_unique(&mut keys, &m[i].0);
        proof {
            assert forall|y: Seq<char>| #[trigger] texts(keys@).contains(y) <==> exists|j: int| 0 <= j < i + 1 && m@[j].0@ == y by {
                if y == m@[i as int].0@ {
                    assert(0 <= i < i + 1 && m@[i as int].0@ == y);
                }
            }
        }
        i = i + 1;
    }
    let ghost mv = meta_view(m@);
    let mut out: Vec<(String, JsonValue)> = Vec::new();
    let mut k: usize = 0;
    while k < keys.len()
        invariant
            k <= keys@.len(),
            mv == meta_view(m@),
            strictly_sorted(texts(keys@)),
            forall|y: Seq<char>| #[trigger] texts(keys@).contains(y) <==> exists|j: int| 0 <= j < m@.len() && m@[j].0@ == y,
            out@.len() == k,
            forall|t: int| 0 <= t < k ==> (#[trigger] out@[t]).0@ == keys@[t]@ && mv.contains_key(keys@[t]@) && mv[keys@[t]@]
                == out@[t].1@,
        decreases keys.len() - k,
    {
        proof {
            assert(texts(keys@)[k as int] == keys@[k as int]@);
            assert(texts(keys@).contains(keys@[k as int]@));
            lemma_meta_view_keys(m@, keys@[k as int]@);
        }
        match meta_get(m, keys[k].as_str()) {
            Some(v) => {
                out.push((keys[k].clone(), v.copy()));
            },
            None => {
                assert(false);
            },
        }
        k = k + 1;
    }
    proof {
        let es = out@.map_values(|e: (String, JsonValue)| (e.0@, e.1@));
        assert forall|a: int, b: int| 0 <= a < b < es.len() implies text_lt(es[a].0, es[b].0) by {
            assert(texts(keys@)[a] == keys@[a]@ && texts(keys@)[b] == keys@[b]@);
        }
        assert forall|key: Seq<char>| #[trigger] mv.contains_key(key) implies exists|t: int| 0 <= t < es.len() && es[t].0 == key by {
            lemma_meta_view_keys(m@, key);
            assert(texts(keys@).contains(key));
            let t = choose|t: int| 0 <= t < texts(keys@).len() && texts(keys@)[t] == key;
            assert(es[t].0 == key);
        }
    }
    out
}


/// The text stored under `key`, when the value is an object holding a string there.
fn text_at<'a>(value: &'a JsonValue, key: &str) -> (r: Option<&'a str>)
    ensures
        match r {
            Some(t) => text_field(*value, key@) == Some(t@),
            None => text_field(*value, key@) is None,
        },
{
    match value.get(key) {
        Some(v) => v.as_str(),
        None => None,
    }
}

/// The timestamp under `key`: `None` when its text is refused, `Some(None)` when there
/// is no text, and the milliseconds otherwise.
fn time_at(value: &JsonValue, key: &str) -> (r: Option<Option<i64>>)
    ensures
        r is None <==> bad_time(*value, key@),
        r == Some(None::<i64>) ==> text_field(*value, key@) is None,
        forall|ms: i64| r == Some(Some(ms)) ==> text_field(*value, key@) is Some && rfc3339_millis(text_field(*value, key@)->0) == Some(ms),
{
    match text_at(value, key) {
        Some(t) => match millis_from_rfc3339(t) {
            Some(ms) => Some(Some(ms)),
            None => None,
        },
        None => Some(None),
    }
}

impl SemanticItemConverter {
    /// The item as a JSON object (see `item_object`); an error when a timestamp lies
    /// outside what chrono can write.
    pub fn to_value(item: &SemanticItem) -> (r: Result<JsonValue, MemoryError>)
        ensures
            rfc3339_text(item.created_at) is None ==> (r matches Err(MemoryError::ConversionError(m)) && m@
                == "Invalid created_at timestamp"@),
            rfc3339_text(item.created_at) is Some && rfc3339_text(item.updated_at) is None ==> (r matches Err(
                MemoryError::ConversionError(m),
            ) && m@ == "Invalid updated_at timestamp"@),
            rfc3339_text(item.created_at) is Some && rfc3339_text(item.updated_at) is Some ==> (r matches Ok(v)
                && exists|meta: Seq<(Seq<char>, JsonData)>|
                #![trigger sorted_listing(meta, item.meta())]
                sorted_listing(meta, item.meta()) && v@ == item_object(
                    *item,
                    rfc3339_text(item.created_at)->0,
                    rfc3339_text(item.updated_at)->0,
                    meta,
                )),
    {
        let created = match rfc3339_from_millis(item.created_at) {
            Some(t) => t,
            None => {
                return Err(conversion_err("Invalid created_at timestamp"));
            },
        };
        let updated = match rfc3339_from_millis(item.updated_at) {
            Some(t) => t,
            None => {
                return Err(conversion_err("Invalid updated_at timestamp"));
            },
        };
        let mut tags: Vec<JsonValue> = Vec::new();
        let mut i: usize = 0;
        while i < item.tags.len()
            invariant
                i <= item.tags@.len(),
                tags@.len() == i,
                forall|j: int| 0 <= j < i ==> (#[trigger] tags@[j])@ == JsonData::Str(item.tags@[j]@),
            decreases item.tags.len() - i,
        {
            tags.push(JsonValue::String(item.tags[i].clone()));
            i = i + 1;
        }
        let meta = sorted_metadata(&item.metadata);
        let ghost mv = meta@.map_values(|e: (String, JsonValue)| (e.0@, e.1@));
        let entries: Vec<(String, JsonValue)> = vec![
            (owned("category"), JsonValue::String(item.category.clone())),
            (owned("confidence"), JsonValue::String(owned(item.confidence.name()))),
            (owned("content"), item.content.copy()),
            (owned("created_at"), JsonValue::String(created)),
            (owned("id"), JsonValue::String(item.id.clone())),
            (owned("item_type"), JsonValue::String(item.item_type.to_string())),
            (owned("metadata"), JsonValue::Object(meta)),
            (owned("tags"), JsonValue::Array(tags)),
            (owned("updated_at"), JsonValue::String(updated)),
        ];
        let v = JsonValue::Object(entries);
        proof {
            let tv = item.tag_view().map_values(|t: Seq<char>| JsonData::Str(t));
            let goal = item_object(*item, rfc3339_text(item.created_at)->0, rfc3339_text(item.updated_at)->0, mv);
            assert(entries@[7].1@->Array_0 =~= tv);
            assert(entries@[6].1@->Object_0 =~= mv);
            let got = v@->Object_0;
            let want = goal->Object_0;
            assert(entries@.len() == 9);
            assert(entries@[0].1@ == JsonData::Str(item.category@));
            assert(entries@[1].1@ == JsonData::Str(item.confidence.spec_name()));
            assert(entries@[3].1@ == JsonData::Str(rfc3339_text(item.created_at)->0));
            assert(entries@[4].1@ == JsonData::Str(item.id@));
            assert(entries@[5].1@ == JsonData::Str(kind_name(item.item_type)));
            assert(entries@[8].1@ == JsonData::Str(rfc3339_text(item.updated_at)->0));
            assert(got.len() == 9);
            assert(got[0] == want[0]);
            assert(got[1] == want[1]);
            assert(got[2] == want[2]);
            assert(got[3] == want[3]);
            assert(got[4] == want[4]);
            assert(got[5] == want[5]);
            assert(got[6] == want[6]);
            assert(got[7] == want[7]);
            assert(got[8] == want[8]);
            assert(got =~= want);
            assert(v@ == goal);
            assert(sorted_listing(mv, item.meta()));
        }
        Ok(v)
    }

    /// An item read from a JSON object: "id" and "item_type" must be strings, the type
    /// one of the four names; "category" defaults to the type's name, "content" to null,
    /// "tags" to none, "confidence" to Medium, the timestamps to the current time (a
    /// timestamp text chrono refuses is an error) and "metadata" to none.
    #[verifier::rlimit(40)]
    pub fn from_value(value: &JsonValue) -> (r: Result<SemanticItem, MemoryError>)
        ensures
            !(value is Object) ==> conversion_error(r, "Invalid semantic item value"@),
            value is Object && text_field(*value, "id"@) is None ==> conversion_error(r, "Missing id in semantic item"@),
            value is Object && text_field(*value, "id"@) is Some && text_field(*value, "item_type"@) is None
                ==> conversion_error(r, "Missing item_type in semantic item"@),
            value is Object && text_field(*value, "id"@) is Some && text_field(*value, "item_type"@) is Some
                && parse_type(text_field(*value, "item_type"@)->0) is None ==> conversion_error(
                r,
                "Invalid semantic item type: "@ + text_field(*value, "item_type"@)->0,
            ),
            readable_prefix(*value) && bad_time(*value, "created_at"@) ==> conversion_error(r, "Invalid created_at format"@),
            readable_prefix(*value) && !bad_time(*value, "created_at"@) && bad_time(*value, "updated_at"@)
                ==> conversion_error(r, "Invalid updated_at format"@),
            readable(*value) ==> (r matches Ok(item) && read_back(*value, item)),
    {
        if !value.is_object() {
            return Err(conversion_err("Invalid semantic item value"));
        }
        let id = match text_at(value, "id") {
            Some(t) => owned(t),
            None => {
                return Err(conversion_err("Missing id in semantic item"));
            },
        };
        let type_text = match text_at(value, "item_type") {
            Some(t) => t,
            None => {
                return Err(conversion_err("Missing item_type in semantic item"));
            },
        };
        let item_type = match SemanticItemType::from_string(type_text) {
            Ok(t) => t,
            Err(e) => {
                return Err(e);
            },
        };
        let category = match text_at(value, "category") {
            Some(t) => owned(t),
            None => item_type.to_string(),
        };
        let content = match value.get("content") {
            Some(v) => v.copy(),
            None => JsonValue::Null,
        };
        let tags = match value.get("tags") {
            Some(JsonValue::Array(a)) => strings_of(a),
            _ => Vec::new(),
        };
        let confidence = match text_at(value, "confidence") {
            Some(t) => match ConfidenceLevel::from_str(t) {
                Some(c) => c,
                None => ConfidenceLevel::Medium,
            },
            None => ConfidenceLevel::Medium,
        };
        let created_at = match time_at(value, "created_at") {
            Some(Some(ms)) => ms,
            Some(None) => now_millis(),
            None => {
                return Err(conversion_err("Invalid created_at format"));
            },
        };
        let updated_at = match time_at(value, "updated_at") {
            Some(Some(ms)) => ms,
            Some(None) => now_millis(),
            None => {
                return Err(conversion_err("Invalid updated_at format"));
            },
        };
        let metadata = match value.get("metadata") {
            Some(JsonValue::Object(o)) => meta_copy(o),
            _ => Vec::new(),
        };
        proof {
            assert(tags@.map_values(|s: String| s@) =~= tags_field(*value));
            assert(meta_view(metadata@) =~= metadata_field(*value));
        }
        let item = SemanticItem {
            id,
            item_type,
            category,
            content,
            tags,
            confidence,
            created_at,
            updated_at,
            metadata,
        };
        proof {
            assert(item.tag_view() =~= tags_field(*value));
        }
        Ok(item)
    }
}

} // verus!
