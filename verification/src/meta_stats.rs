//! Counts, sizes and key comparisons over an item's metadata, one entry per key.

use vstd::prelude::*;
use vstd::utf8::encode_utf8;
use crate::item::SemanticItem;
use crate::json::{JsonData, JsonValue};
use crate::meta::{meta_get, meta_view, Metadata};
use crate::meta_quality::{entry_is_live, find_char, has_char, lemma_live_count_bound, live, live_count, utf8_len_at_most};
use crate::text::{chars_of, owned};
use crate::order::{key_view, sorts_stably, stable_order};
use crate::similarity::utf8_len;

verus! {

/// The kind of a JSON value as the statistics number it: 0 string, 1 number,
/// 2 boolean, 3 array, 4 object, 5 null.
pub open spec fn json_kind(v: JsonData) -> nat {
    match v {
        JsonData::Str(_) => 0,
        JsonData::Number(_) => 1,
        JsonData::Bool(_) => 2,
        JsonData::Array(_) => 3,
        JsonData::Object(_) => 4,
        JsonData::Null => 5,
    }
}

/// Entries whose value is of the given kind.
pub open spec fn of_kind(kind: nat) -> spec_fn((String, JsonValue)) -> bool {
    |e: (String, JsonValue)| json_kind(e.1@) == kind
}

/// Every entry.
pub open spec fn any_entry() -> spec_fn((String, JsonValue)) -> bool {
    |e: (String, JsonValue)| true
}

fn kind_of(v: &JsonValue) -> (r: u8)
    ensures
        r as nat == json_kind(v@),
{
    match v {
        JsonValue::String(_) => 0,
        JsonValue::Number(_) => 1,
        JsonValue::Bool(_) => 2,
        JsonValue::Array(_) => 3,
        JsonValue::Object(_) => 4,
        JsonValue::Null => 5,
    }
}

/// The size metadata reports for a value: the UTF-8 bytes of a string, the elements
/// of an array, the entries of an object; nothing for other values.
pub open spec fn value_size(v: JsonData) -> Option<usize> {
    match v {
        JsonData::Str(s) => Some(encode_utf8(s).len() as usize),
        JsonData::Array(a) => Some(a.len() as usize),
        JsonData::Object(o) => Some(o.len() as usize),
        _ => None,
    }
}

/// The keys and sizes of the sized values among the live entries of the first `n`,
/// in entry order.
pub open spec fn value_sizes(m: Seq<(String, JsonValue)>, n: int) -> Seq<(Seq<char>, usize)>
    decreases n,
{
    if n <= 0 {
        Seq::empty()
    } else {
        value_sizes(m, n - 1) + if live(m, n - 1) && value_size(m[n - 1].1@) is Some {
            seq![(m[n - 1].0@, value_size(m[n - 1].1@)->0)]
        } else {
            Seq::empty()
        }
    }
}

/// Key and size pairs by their characters.
pub open spec fn sized_view(s: Seq<(&String, usize)>) -> Seq<(Seq<char>, usize)> {
    Seq::new(s.len(), |i: int| (s[i].0@, s[i].1))
}

/// Sort keys that put larger sizes first.
pub open spec fn larger_first(s: Seq<(Seq<char>, usize)>) -> Seq<int> {
    s.map_values(|p: (Seq<char>, usize)| -(p.1 as int))
}

/// The positions of the live entries among the first `n`, in entry order.
pub open spec fn live_positions(m: Seq<(String, JsonValue)>, n: int) -> Seq<int>
    decreases n,
{
    if n <= 0 {
        Seq::empty()
    } else {
        live_positions(m, n - 1) + if live(m, n - 1) {
            seq![n - 1]
        } else {
            Seq::empty()
        }
    }
}

/// The keys of the live entries among the first `n` that satisfy `p`, in entry order.
pub open spec fn live_keys_where(m: Seq<(String, JsonValue)>, p: spec_fn(Seq<char>) -> bool, n: int) -> Seq<
    Seq<char>,
>
    decreases n,
{
    if n <= 0 {
        Seq::empty()
    } else {
        live_keys_where(m, p, n - 1) + if live(m, n - 1) && p(m[n - 1].0@) {
            seq![m[n - 1].0@]
        } else {
            Seq::empty()
        }
    }
}

/// A value that is cheap to keep: a string of at most 100 bytes, any number or
/// boolean, an array of at most 10 elements, an object of at most 5 entries.
pub open spec fn efficient_value(v: JsonData) -> bool {
    match v {
        JsonData::Str(s) => utf8_len(s) <= 100,
        JsonData::Number(_) => true,
        JsonData::Bool(_) => true,
        JsonData::Array(a) => a.len() <= 10,
        JsonData::Object(o) => o.len() <= 5,
        JsonData::Null => false,
    }
}

fn size_of_value(v: &JsonValue) -> (r: Option<usize>)
    ensures
        r == value_size(v@),
{
    match v {
        JsonValue::String(s) => Some(s.as_str().len()),
        JsonValue::Array(a) => Some(a.len()),
        JsonValue::Object(o) => Some(o.len()),
        _ => None,
    }
}

impl SemanticItem {
    /// The number of metadata keys, then how many of their values are strings,
    /// numbers, booleans, arrays, objects and nulls.
    pub fn get_metadata_statistics(&self) -> (r: (usize, usize, usize, usize, usize, usize, usize))
        ensures
            r.0 == live_count(self.metadata@, any_entry(), self.metadata@.len() as int),
            r.1 == live_count(self.metadata@, of_kind(0), self.metadata@.len() as int),
            r.2 == live_count(self.metadata@, of_kind(1), self.metadata@.len() as int),
            r.3 == live_count(self.metadata@, of_kind(2), self.metadata@.len() as int),
            r.4 == live_count(self.metadata@, of_kind(3), self.metadata@.len() as int),
            r.5 == live_count(self.metadata@, of_kind(4), self.metadata@.len() as int),
            r.6 == live_count(self.metadata@, of_kind(5), self.metadata@.len() as int),
    {
        let m = &self.metadata;
        let mut total: usize = 0;
        let mut strings: usize = 0;
        let mut numbers: usize = 0;
        let mut booleans: usize = 0;
        let mut arrays: usize = 0;
        let mut objects: usize = 0;
        let mut nulls: usize = 0;
        let mut i: usize = 0;
        while i < m.len()
            invariant
                i <= m@.len(),
                m == &self.metadata,
                total == live_count(m@, any_entry(), i as int),
                strings == live_count(m@, of_kind(0), i as int),
                numbers == live_count(m@, of_kind(1), i as int),
                booleans == live_count(m@, of_kind(2), i as int),
                arrays == live_count(m@, of_kind(3), i as int),
                objects == live_count(m@, of_kind(4), i as int),
                nulls == live_count(m@, of_kind(5), i as int),
            decreases m.len() - i,
        {
            proof {
                lemma_live_count_bound(m@, any_entry(), i as int);
                lemma_live_count_bound(m@, of_kind(0), i as int);
                lemma_live_count_bound(m@, of_kind(1), i as int);
                lemma_live_count_bound(m@, of_kind(2), i as int);
                lemma_live_count_bound(m@, of_kind(3), i as int);
                lemma_live_count_bound(m@, of_kind(4), i as int);
                lemma_live_count_bound(m@, of_kind(5), i as int);
            }
            if entry_is_live(m, i) {
                total = total + 1;
                let k = kind_of(&m[i].1);
                if k == 0 {
                    strings = strings + 1;
                } else if k == 1 {
                    numbers = numbers + 1;
                } else if k == 2 {
                    booleans = booleans + 1;
                } else if k == 3 {
                    arrays = arrays + 1;
                } else if k == 4 {
                    objects = objects + 1;
                } else {
                    nulls = nulls + 1;
                }
            }
            i = i + 1;
        }
        (total, strings, numbers, booleans, arrays, objects, nulls)
    }

    /// How many metadata values are cheap to keep (see `efficient_value`).
    pub fn efficient_metadata_entry_count(&self) -> (r: usize)
        ensures
            r == live_count(
                self.metadata@,
                |e: (String, JsonValue)| efficient_value(e.1@),
                self.metadata@.len() as int,
            ),
    {
        let m = &self.metadata;
        let ghost p = |e: (String, JsonValue)| efficient_value(e.1@);
        let mut count: usize = 0;
        let mut i: usize = 0;
        while i < m.len()
            invariant
                i <= m@.len(),
                m == &self.metadata,
                p == (|e: (String, JsonValue)| efficient_value(e.1@)),
                count == live_count(m@, p, i as int),
            decreases m.len() - i,
        {
            proof {
                lemma_live_count_bound(m@, p, i as int);
            }
            if entry_is_live(m, i) {
                let ok = match &m[i].1 {
                    JsonValue::String(s) => utf8_len_at_most(s.as_str(), 100),
                    JsonValue::Number(_) => true,
                    JsonValue::Bool(_) => true,
                    JsonValue::Array(a) => a.len() <= 10,
                    JsonValue::Object(o) => o.len() <= 5,
                    JsonValue::Null => false,
                };
                if ok {
                    count = count + 1;
                }
            }
            i = i + 1;
        }
        count
    }

    /// The key and size of every string, array and object value, in entry order.
    pub fn get_metadata_value_sizes(&self) -> (r: Vec<(&String, usize)>)
        ensures
            sized_view(r@) == value_sizes(self.metadata@, self.metadata@.len() as int),
    {
        let m = &self.metadata;
        let mut out: Vec<(&String, usize)> = Vec::new();
        let mut i: usize = 0;
        while i < m.len()
            invariant
                i <= m@.len(),
                m == &self.metadata,
                sized_view(out@) == value_sizes(m@, i as int),
            decreases m.len() - i,
        {
            if entry_is_live(m, i) {
                match size_of_value(&m[i].1) {
                    Some(n) => {
                        let ghost before = sized_view(out@);
                        out.push((&m[i].0, n));
                        assert(sized_view(out@) =~= before.push((m@[i as int].0@, n)));
                    },
                    None => {},
                }
            }
            assert(sized_view(out@) =~= value_sizes(m@, i + 1));
            i = i + 1;
        }
        out
    }

    /// The sized values (see `get_metadata_value_sizes`), largest first, at most
    /// `limit` of them; equal sizes keep entry order.
    pub fn find_largest_metadata_values(&self, limit: usize) -> (r: Vec<(&String, usize)>)
        ensures
            exists|ord: Seq<usize>|
                #[trigger] sorts_stably(ord, larger_first(value_sizes(self.metadata@, self.metadata@.len() as int)))
                    && sized_view(r@) == ord.map_values(
                    |j: usize| value_sizes(self.metadata@, self.metadata@.len() as int)[j as int],
                ).take(if limit <= ord.len() { limit as int } else { ord.len() as int }),
    {
        let sizes = self.get_metadata_value_sizes();
        let ghost sv = sized_view(sizes@);
        let mut keys: Vec<i128> = Vec::new();
        let mut i: usize = 0;
        while i < sizes.len()
            invariant
                i <= sizes@.len(),
                sv == sized_view(sizes@),
                key_view(keys@) == larger_first(sv).take(i as int),
            decreases sizes.len() - i,
        {
            let ghost kb = key_view(keys@);
            let k = -(sizes[i].1 as i128);
            keys.push(k);
            assert(sv[i as int].1 == sizes@[i as int].1);
            assert(key_view(keys@) =~= kb.push(k as int));
            assert(larger_first(sv).take(i + 1) =~= larger_first(sv).take(i as int).push(larger_first(sv)[i as int]));
            assert(key_view(keys@) =~= larger_first(sv).take(i + 1));
            i = i + 1;
        }
        assert(larger_first(sv).take(sv.len() as int) =~= larger_first(sv));
        let ord = stable_order(&keys);
        let mut out: Vec<(&String, usize)> = Vec::new();
        let mut j: usize = 0;
        while j < ord.len() && j < limit
            invariant
                j <= ord@.len(),
                j <= limit,
                sv == sized_view(sizes@),
                sorts_stably(ord@, larger_first(sv)),
                sized_view(out@) == ord@.map_values(|t: usize| sv[t as int]).take(j as int),
            decreases ord.len() - j,
        {
            let t = ord[j];
            assert(t < sv.len());
            let ghost before = sized_view(out@);
            out.push(sizes[t]);
            assert(sized_view(out@) =~= before.push(sv[t as int]));
            assert(ord@.map_values(|t: usize| sv[t as int]).take(j + 1) =~= ord@.map_values(|t: usize| sv[t as int]).take(j as int).push(sv[t as int]));
            assert(sized_view(out@) =~= ord@.map_values(|t: usize| sv[t as int]).take(j + 1));
            j = j + 1;
        }
        assert(sized_view(out@) =~= ord@.map_values(|t: usize| sv[t as int]).take(
            if limit <= ord@.len() { limit as int } else { ord@.len() as int },
        ));
        out
    }

    /// The keys both items have, the keys only this item has, and the keys only
    /// `other` has, each in its item's entry order.
    pub fn compare_metadata_keys(&self, other: &SemanticItem) -> (r: (Vec<String>, Vec<String>, Vec<String>))
        ensures
            r.0@.map_values(|s: String| s@) == live_keys_where(
                self.metadata@,
                |k: Seq<char>| other.meta().contains_key(k),
                self.metadata@.len() as int,
            ),
            r.1@.map_values(|s: String| s@) == live_keys_where(
                self.metadata@,
                |k: Seq<char>| !other.meta().contains_key(k),
                self.metadata@.len() as int,
            ),
            r.2@.map_values(|s: String| s@) == live_keys_where(
                other.metadata@,
                |k: Seq<char>| !self.meta().contains_key(k),
                other.metadata@.len() as int,
            ),
    {
        let common = keys_where(&self.metadata, &other.metadata, true);
        let only_self = keys_where(&self.metadata, &other.metadata, false);
        let only_other = keys_where(&other.metadata, &self.metadata, false);
        proof {
            assert((|k: Seq<char>| meta_view(other.metadata@).contains_key(k) == true) =~= (|k: Seq<char>|
                other.meta().contains_key(k)));
            assert((|k: Seq<char>| meta_view(other.metadata@).contains_key(k) == false) =~= (|k: Seq<char>|
                !other.meta().contains_key(k)));
            assert((|k: Seq<char>| meta_view(self.metadata@).contains_key(k) == false) =~= (|k: Seq<char>|
                !self.meta().contains_key(k)));
        }
        (common, only_self, only_other)
    }

    /// Each metadata key with `transformer` applied to its value, in entry order.
    pub fn transform_metadata_values<F, T>(&self, transformer: F) -> (r: Vec<(String, T)>) where
        F: Fn(&JsonValue) -> T,

        requires
            forall|v: &JsonValue| #[trigger] transformer.requires((v,)),
        ensures
            r@.len() == live_positions(self.metadata@, self.metadata@.len() as int).len(),
            forall|i: int|
                0 <= i < r@.len() ==> {
                    let j = live_positions(self.metadata@, self.metadata@.len() as int)[i];
                    &&& (#[trigger] r@[i]).0@ == self.metadata@[j].0@
                    &&& transformer.ensures((&self.metadata@[j].1,), r@[i].1)
                },
    {
        let m = &self.metadata;
        let mut out: Vec<(String, T)> = Vec::new();
        let mut i: usize = 0;
        while i < m.len()
            invariant
                i <= m@.len(),
                m == &self.metadata,
                forall|v: &JsonValue| #[trigger] transformer.requires((v,)),
                out@.len() == live_positions(m@, i as int).len(),
                forall|t: int| 0 <= t < live_positions(m@, i as int).len() ==> 0 <= #[trigger] live_positions(
                    m@,
                    i as int,
                )[t] < i,
                forall|t: int|
                    0 <= t < out@.len() ==> {
                        let j = live_positions(m@, i as int)[t];
                        &&& (#[trigger] out@[t]).0@ == m@[j].0@
                        &&& transformer.ensures((&m@[j].1,), out@[t].1)
                    },
            decreases m.len() - i,
        {
            let ghost before = out@;
            let ghost lp = live_positions(m@, i as int);
            if entry_is_live(m, i) {
                let v = transformer(&m[i].1);
                out.push((m[i].0.clone(), v));
                assert(live_positions(m@, i + 1) == lp + seq![i as int]);
                assert forall|t: int| 0 <= t < out@.len() implies {
                    let j = live_positions(m@, i + 1)[t];
                    &&& (#[trigger] out@[t]).0@ == m@[j].0@
                    &&& transformer.ensures((&m@[j].1,), out@[t].1)
                } by {
                    if t < before.len() {
                        assert(out@[t] == before[t]);
                        assert(live_positions(m@, i + 1)[t] == lp[t]);
                    }
                }
            } else {
                assert(live_positions(m@, i + 1) =~= lp);
            }
            i = i + 1;
        }
        out
    }
}

/// The keys of the live entries of `m` that `other` has (`present`) or lacks.
fn keys_where(m: &Metadata, other: &Metadata, present: bool) -> (r: Vec<String>)
    ensures
        r@.map_values(|s: String| s@) == live_keys_where(
            m@,
            |k: Seq<char>| meta_view(other@).contains_key(k) == present,
            m@.len() as int,
        ),
{
    let ghost p = |k: Seq<char>| meta_view(other@).contains_key(k) == present;
    let mut out: Vec<String> = Vec::new();
    let mut i: usize = 0;
    while i < m.len()
        invariant
            i <= m@.len(),
            p == (|k: Seq<char>| meta_view(other@).contains_key(k) == present),
            out@.map_values(|s: String| s@) == live_keys_where(m@, p, i as int),
        decreases m.len() - i,
    {
        let ghost before = out@;
        if entry_is_live(m, i) {
            let has = meta_get(other, m[i].0.as_str()).is_some();
            if has == present {
                out.push(m[i].0.clone());
            }
        }
        assert(out@.map_values(|s: String| s@) =~= live_keys_where(m@, p, i + 1));
        i = i + 1;
    }
    out
}

/// Whether the character has Unicode's Uppercase property, as `char::is_uppercase`
/// reports it.
pub uninterp spec fn upper_case(c: char) -> bool;

/// Calls `char::is_uppercase`; its result is `upper_case(c)`, a property of the
/// character alone that Unicode's tables decide. Only the ASCII part is stated, as std
/// documents it: an ASCII character is upper case exactly when it is 'A' to 'Z'.
#[verifier::external_body]
fn char_is_uppercase(c: char) -> (r: bool)
    ensures
        r == upper_case(c),
        (c as u32) < 0x80 ==> r == (0x41 <= (c as u32) && (c as u32) <= 0x5A),
{
    c.is_uppercase()
}

/// Keys holding an underscore.
pub open spec fn underscore_key() -> spec_fn((String, JsonValue)) -> bool {
    |e: (String, JsonValue)| has_char(e.0@, '_')
}

/// Keys holding a dot.
pub open spec fn dot_key() -> spec_fn((String, JsonValue)) -> bool {
    |e: (String, JsonValue)| has_char(e.0@, '.')
}

/// Keys holding an upper-case character.
pub open spec fn camel_key() -> spec_fn((String, JsonValue)) -> bool {
    |e: (String, JsonValue)| exists|i: int| 0 <= i < e.0@.len() && upper_case(#[trigger] e.0@[i])
}

/// Keys ending in an ASCII digit.
pub open spec fn digit_suffix_key() -> spec_fn((String, JsonValue)) -> bool {
    |e: (String, JsonValue)| e.0@.len() > 0 && '0' <= e.0@[e.0@.len() - 1] <= '9'
}

/// Keys of more than 3 bytes whose third character is an underscore.
pub open spec fn prefixed_key() -> spec_fn((String, JsonValue)) -> bool {
    |e: (String, JsonValue)| utf8_len(e.0@) > 3 && e.0@.len() > 2 && e.0@[2] == '_'
}

/// The named count, when it is not zero.
pub open spec fn pattern_part(name: Seq<char>, count: nat) -> Seq<(Seq<char>, nat)> {
    if count > 0 {
        seq![(name, count)]
    } else {
        Seq::empty()
    }
}

/// The pattern counts of the metadata keys, in a fixed order, leaving out those that
/// are zero.
pub open spec fn key_pattern_report(m: Seq<(String, JsonValue)>) -> Seq<(Seq<char>, nat)> {
    let n = m.len() as int;
    pattern_part("underscore_separated"@, live_count(m, underscore_key(), n)) + pattern_part(
        "dot_separated"@,
        live_count(m, dot_key(), n),
    ) + pattern_part("camel_case"@, live_count(m, camel_key(), n)) + pattern_part(
        "numeric_suffix"@,
        live_count(m, digit_suffix_key(), n),
    ) + pattern_part("prefixed"@, live_count(m, prefixed_key(), n))
}

fn any_upper(cs: &Vec<char>) -> (r: bool)
    ensures
        r == exists|i: int| 0 <= i < cs@.len() && upper_case(#[trigger] cs@[i]),
{
    let mut i: usize = 0;
    while i < cs.len()
        invariant
            i <= cs@.len(),
            forall|j: int| 0 <= j < i ==> !upper_case(#[trigger] cs@[j]),
        decreases cs.len() - i,
    {
        if char_is_uppercase(cs[i]) {
            return true;
        }
        i = i + 1;
    }
    false
}

fn push_pattern(out: &mut Vec<(String, usize)>, name: &str, count: usize)
    ensures
        final(out)@.map_values(|p: (String, usize)| (p.0@, p.1 as nat)) == old(out)@.map_values(
            |p: (String, usize)| (p.0@, p.1 as nat),
        ) + pattern_part(name@, count as nat),
{
    let ghost before = out@;
    if count > 0 {
        out.push((owned(name), count));
    }
    assert(out@.map_values(|p: (String, usize)| (p.0@, p.1 as nat)) =~= before.map_values(
        |p: (String, usize)| (p.0@, p.1 as nat),
    ) + pattern_part(name@, count as nat));
}

impl SemanticItem {
    /// How many metadata keys follow each naming pattern: underscore separated, dot
    /// separated, camel case, numeric suffix, two-letter prefix; patterns no key
    /// follows are left out.
    pub fn analyze_metadata_key_patterns(&self) -> (r: Vec<(String, usize)>)
        ensures
            r@.map_values(|p: (String, usize)| (p.0@, p.1 as nat)) == key_pattern_report(self.metadata@),
    {
        let m = &self.metadata;
        let mut underscore: usize = 0;
        let mut dot: usize = 0;
        let mut camel: usize = 0;
        let mut digit: usize = 0;
        let mut prefixed: usize = 0;
        let mut i: usize = 0;
        while i < m.len()
            invariant
                i <= m@.len(),
                m == &self.metadata,
                underscore == live_count(m@, underscore_key(), i as int),
                dot == live_count(m@, dot_key(), i as int),
                camel == live_count(m@, camel_key(), i as int),
                digit == live_count(m@, digit_suffix_key(), i as int),
                prefixed == live_count(m@, prefixed_key(), i as int),
            decreases m.len() - i,
        {
            proof {
                lemma_live_count_bound(m@, underscore_key(), i as int);
                lemma_live_count_bound(m@, dot_key(), i as int);
                lemma_live_count_bound(m@, camel_key(), i as int);
                lemma_live_count_bound(m@, digit_suffix_key(), i as int);
                lemma_live_count_bound(m@, prefixed_key(), i as int);
            }
            if entry_is_live(m, i) {
                let key = m[i].0.as_str();
                let cs = chars_of(key);
                if find_char(&cs, '_') {
                    underscore = underscore + 1;
                }
                if find_char(&cs, '.') {
                    dot = dot + 1;
                }
                if any_upper(&cs) {
                    camel = camel + 1;
                }
                if cs.len() > 0 && '0' <= cs[cs.len() - 1] && cs[cs.len() - 1] <= '9' {
                    digit = digit + 1;
                }
                if !utf8_len_at_most(key, 3) && cs.len() > 2 && cs[2] == '_' {
                    prefixed = prefixed + 1;
                }
            }
            i = i + 1;
        }
        let mut out: Vec<(String, usize)> = Vec::new();
        push_pattern(&mut out, "underscore_separated", underscore);
        push_pattern(&mut out, "dot_separated", dot);
        push_pattern(&mut out, "camel_case", camel);
        push_pattern(&mut out, "numeric_suffix", digit);
        push_pattern(&mut out, "prefixed", prefixed);
        assert(out@.map_values(|p: (String, usize)| (p.0@, p.1 as nat)) =~= key_pattern_report(m@));
        out
    }
}

} // verus!
