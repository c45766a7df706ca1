//! The JSON values that items carry as content and metadata.

use vstd::prelude::*;
use crate::text::chars_eq;
use crate::text::chars_of;

verus! {

/// A JSON value. Numbers are held as the decimal text that JSON writes for them,
/// so that two numbers are equal exactly when their texts are.
#[derive(Debug)]
pub enum JsonValue {
    Null,
    Bool(bool),
    Number(String),
    String(String),
    Array(Vec<JsonValue>),
    Object(Vec<(String, JsonValue)>),
}

/// The mathematical content of a `JsonValue`: strings as character sequences.
pub enum JsonData {
    Null,
    Bool(bool),
    Number(Seq<char>),
    Str(Seq<char>),
    Array(Seq<JsonData>),
    Object(Seq<(Seq<char>, JsonData)>),
}

/// The content of `v`, with every string taken by its characters.
pub open spec fn json_data(v: JsonValue) -> JsonData
    decreases v,
{
    match v {
        JsonValue::Null => JsonData::Null,
        JsonValue::Bool(b) => JsonData::Bool(b),
        JsonValue::Number(n) => JsonData::Number(n@),
        JsonValue::String(s) => JsonData::Str(s@),
        JsonValue::Array(a) => JsonData::Array(
            Seq::new(a@.len(), |i: int| if 0 <= i < a@.len() { json_data(a@[i]) } else { JsonData::Null }),
        ),
        JsonValue::Object(o) => JsonData::Object(
            Seq::new(
                o@.len(),
                |i: int|
                    if 0 <= i < o@.len() {
                        (o@[i].0@, json_data(o@[i].1))
                    } else {
                        (Seq::empty(), JsonData::Null)
                    },
            ),
        ),
    }
}

impl View for JsonValue {
    type V = JsonData;

    open spec fn view(&self) -> JsonData {
        json_data(*self)
    }
}

/// Whether two values have the same content (what `==` on JSON values decides).
pub fn json_eq(a: &JsonValue, b: &JsonValue) -> (r: bool)
    ensures
        r == (a@ == b@),
    decreases a,
{
    match (a, b) {
        (JsonValue::Null, JsonValue::Null) => true,
        (JsonValue::Bool(x), JsonValue::Bool(y)) => *x == *y,
        (JsonValue::Number(x), JsonValue::Number(y)) => {
            let cx = chars_of(x.as_str());
            let cy = chars_of(y.as_str());
            chars_eq(&cx, &cy)
        },
        (JsonValue::String(x), JsonValue::String(y)) => {
            let cx = chars_of(x.as_str());
            let cy = chars_of(y.as_str());
            chars_eq(&cx, &cy)
        },
        (JsonValue::Array(x), JsonValue::Array(y)) => {
            if x.len() != y.len() {
                assert(a@->Array_0.len() != b@->Array_0.len());
                return false;
            }
            let mut i: usize = 0;
            while i < x.len()
                invariant
                    x.len() == y.len(),
                    i <= x.len(),
                    *a == JsonValue::Array(*x),
                    *b == JsonValue::Array(*y),
                    forall|j: int| 0 <= j < i ==> json_data(x@[j]) == json_data(y@[j]),
                decreases x.len() - i,
            {
                assert(decreases_to!(a => x@[i as int]));
                if !json_eq(&x[i], &y[i]) {
                    assert(a@ == json_data(JsonValue::Array(*x)));
                    assert(a@->Array_0[i as int] == json_data(x@[i as int]));
                    assert(b@->Array_0[i as int] == json_data(y@[i as int]));
                    return false;
                }
                i = i + 1;
            }
            assert(a@->Array_0 =~= b@->Array_0);
            true
        },
        (JsonValue::Object(x), JsonValue::Object(y)) => {
            if x.len() != y.len() {
                assert(a@->Object_0.len() != b@->Object_0.len());
                return false;
            }
            let mut i: usize = 0;
            while i < x.len()
                invariant
                    x.len() == y.len(),
                    i <= x.len(),
                    *a == JsonValue::Object(*x),
                    *b == JsonValue::Object(*y),
                    forall|j: int|
                        0 <= j < i ==> x@[j].0@ == y@[j].0@ && json_data(x@[j].1) == json_data(y@[j].1),
                decreases x.len() - i,
            {
                let ck = chars_of(x[i].0.as_str());
                let dk = chars_of(y[i].0.as_str());
                if !chars_eq(&ck, &dk) {
                    assert(a@ == json_data(JsonValue::Object(*x)));
                    assert(a@->Object_0[i as int].0 == x@[i as int].0@);
                    assert(b@->Object_0[i as int].0 == y@[i as int].0@);
                    return false;
                }
                assert(decreases_to!(a => x@[i as int].1));
                if !json_eq(&x[i].1, &y[i].1) {
                    assert(a@ == json_data(JsonValue::Object(*x)));
                    assert(a@->Object_0[i as int].1 == json_data(x@[i as int].1));
                    assert(b@->Object_0[i as int].1 == json_data(y@[i as int].1));
                    return false;
                }
                i = i + 1;
            }
            assert(a@->Object_0 =~= b@->Object_0);
            true
        },
        _ => false,
    }
}


/// Index of the first entry of `o` whose key is `key`, if any.
pub open spec fn first_key_index(o: Seq<(String, JsonValue)>, key: Seq<char>) -> Option<int> {
    if exists|i: int| 0 <= i < o.len() && (#[trigger] o[i]).0@ == key {
        let i = choose|i: int|
            0 <= i < o.len() && (#[trigger] o[i]).0@ == key && forall|j: int|
                0 <= j < i ==> (#[trigger] o[j]).0@ != key;
        Some(i)
    } else {
        None
    }
}

/// There is a least index holding `key` when some index holds it.
pub proof fn lemma_first_key_index(o: Seq<(String, JsonValue)>, key: Seq<char>, k: int)
    requires
        0 <= k < o.len(),
        o[k].0@ == key,
        forall|j: int| 0 <= j < k ==> (#[trigger] o[j]).0@ != key,
    ensures
        first_key_index(o, key) == Some(k),
{
    let w = choose|i: int|
        0 <= i < o.len() && (#[trigger] o[i]).0@ == key && forall|j: int|
            0 <= j < i ==> (#[trigger] o[j]).0@ != key;
    assert(0 <= k < o.len() && o[k].0@ == key && forall|j: int| 0 <= j < k ==> (#[trigger] o[j]).0@ != key);
    if w < k {
        assert(o[w].0@ == key);
    } else if w > k {
        assert(o[k].0@ != key);
    }
}

/// Index of the first entry of `o` whose key is `key`.
pub fn object_find(o: &Vec<(String, JsonValue)>, key: &str) -> (r: Option<usize>)
    ensures
        match r {
            Some(i) => first_key_index(o@, key@) == Some(i as int) && i < o@.len() && o@[i as int].0@
                == key@,
            None => first_key_index(o@, key@) is None,
        },
{
    let k = chars_of(key);
    let mut i: usize = 0;
    while i < o.len()
        invariant
            i <= o.len(),
            k@ == key@,
            forall|j: int| 0 <= j < i ==> (#[trigger] o@[j]).0@ != key@,
        decreases o.len() - i,
    {
        let c = chars_of(o[i].0.as_str());
        if chars_eq(&c, &k) {
            proof {
                lemma_first_key_index(o@, key@, i as int);
            }
            return Some(i);
        }
        i = i + 1;
    }
    assert(!(exists|i: int| 0 <= i < o@.len() && (#[trigger] o@[i]).0@ == key@));
    None
}

impl JsonValue {
    /// A deep copy with the same content.
    pub fn copy(&self) -> (r: JsonValue)
        ensures
            r@ == self@,
        decreases self,
    {
        match self {
            JsonValue::Null => JsonValue::Null,
            JsonValue::Bool(b) => JsonValue::Bool(*b),
            JsonValue::Number(n) => JsonValue::Number(n.clone()),
            JsonValue::String(t) => JsonValue::String(t.clone()),
            JsonValue::Array(a) => {
                let mut out: Vec<JsonValue> = Vec::new();
                let mut i: usize = 0;
                while i < a.len()
                    invariant
                        i <= a.len(),
                        *self == JsonValue::Array(*a),
                        out@.len() == i,
                        forall|j: int| 0 <= j < i ==> json_data(#[trigger] out@[j]) == json_data(a@[j]),
                    decreases a.len() - i,
                {
                    assert(decreases_to!(*self => self->Array_0));
                    assert(decreases_to!(self->Array_0 => self->Array_0@));
                    assert(decreases_to!(*self => a@[i as int]));
                    let c = a[i].copy();
                    out.push(c);
                    i = i + 1;
                }
                let r = JsonValue::Array(out);
                assert(self@ == json_data(JsonValue::Array(*a)));
                assert(r@ == json_data(JsonValue::Array(out)));
                assert forall|j: int| 0 <= j < out@.len() implies r@->Array_0[j] == self@->Array_0[j] by {
                    assert(json_data(out@[j]) == json_data(a@[j]));
                }
                assert(r@->Array_0 =~= self@->Array_0);
                r
            },
            JsonValue::Object(o) => {
                let mut out: Vec<(String, JsonValue)> = Vec::new();
                let mut i: usize = 0;
                while i < o.len()
                    invariant
                        i <= o.len(),
                        *self == JsonValue::Object(*o),
                        out@.len() == i,
                        forall|j: int|
                            0 <= j < i ==> (#[trigger] out@[j]).0@ == o@[j].0@ && json_data(out@[j].1)
                                == json_data(o@[j].1),
                    decreases o.len() - i,
                {
                    assert(decreases_to!(*self => self->Object_0));
                    assert(decreases_to!(self->Object_0 => self->Object_0@));
                    assert(decreases_to!(self->Object_0@ => self->Object_0@[i as int]));
                    assert(decreases_to!(*self => o@[i as int].1));
                    let c = o[i].1.copy();
                    out.push((o[i].0.clone(), c));
                    i = i + 1;
                }
                let r = JsonValue::Object(out);
                assert(self@ == json_data(JsonValue::Object(*o)));
                assert(r@ == json_data(JsonValue::Object(out)));
                assert forall|j: int| 0 <= j < out@.len() implies r@->Object_0[j] == self@->Object_0[j] by {
                    assert(out@[j].0@ == o@[j].0@);
                }
                assert(r@->Object_0 =~= self@->Object_0);
                r
            },
        }
    }

    /// Whether the value is a string.
    pub fn is_string(&self) -> (r: bool)
        ensures
            r == (self@ is Str),
    {
        matches!(self, JsonValue::String(_))
    }

    /// Whether the value is a number.
    pub fn is_number(&self) -> (r: bool)
        ensures
            r == (self@ is Number),
    {
        matches!(self, JsonValue::Number(_))
    }

    /// Whether the value is a boolean.
    pub fn is_boolean(&self) -> (r: bool)
        ensures
            r == (self@ is Bool),
    {
        matches!(self, JsonValue::Bool(_))
    }

    /// Whether the value is an array.
    pub fn is_array(&self) -> (r: bool)
        ensures
            r == (self@ is Array),
    {
        matches!(self, JsonValue::Array(_))
    }

    /// Whether the value is an object.
    pub fn is_object(&self) -> (r: bool)
        ensures
            r == (self@ is Object),
    {
        matches!(self, JsonValue::Object(_))
    }

    /// Whether the value is null.
    pub fn is_null(&self) -> (r: bool)
        ensures
            r == (self@ is Null),
    {
        matches!(self, JsonValue::Null)
    }

    /// The text of a string value.
    pub fn as_str(&self) -> (r: Option<&str>)
        ensures
            match self@ {
                JsonData::Str(t) => r is Some && r->0@ == t,
                _ => r is None,
            },
    {
        match self {
            JsonValue::String(t) => Some(t.as_str()),
            _ => None,
        }
    }

    /// The value stored under `key` when this is an object holding that key.
    pub fn get(&self, key: &str) -> (r: Option<&JsonValue>)
        ensures
            match self {
                JsonValue::Object(o) => match first_key_index(o@, key@) {
                    Some(i) => r == Some(&o@[i].1),
                    None => r is None,
                },
                _ => r is None,
            },
    {
        match self {
            JsonValue::Object(o) => match object_find(o, key) {
                Some(i) => Some(&o[i].1),
                None => None,
            },
            _ => None,
        }
    }

    /// Whether this is an object holding `key`.
    pub fn contains_key(&self, key: &str) -> (r: bool)
        ensures
            r == match self {
                JsonValue::Object(o) => first_key_index(o@, key@) is Some,
                _ => false,
            },
    {
        match self {
            JsonValue::Object(o) => object_find(o, key).is_some(),
            _ => false,
        }
    }
}

} // verus!
