//! Key/value metadata held as entries in insertion order; a later entry for a key
//! hides an earlier one, as a map insert would.

use vstd::prelude::*;
use crate::json::{JsonData, JsonValue};
use crate::text::{chars_eq, chars_of};

verus! {

/// Metadata entries.
pub type Metadata = Vec<(String, JsonValue)>;

/// The map the entries describe: each key maps to the value of its last entry.
pub open spec fn meta_view(m: Seq<(String, JsonValue)>) -> Map<Seq<char>, JsonData>
    decreases m.len(),
{
    if m.len() == 0 {
        Map::empty()
    } else {
        meta_view(m.drop_last()).insert(m.last().0@, m.last().1@)
    }
}

/// The entries of `m` whose key is not `k`, in order.
pub open spec fn without_key(m: Seq<(String, JsonValue)>, k: Seq<char>) -> Seq<(String, JsonValue)>
    decreases m.len(),
{
    if m.len() == 0 {
        m
    } else if m.last().0@ == k {
        without_key(m.drop_last(), k)
    } else {
        without_key(m.drop_last(), k).push(m.last())
    }
}

/// Dropping every entry of a key removes the key from the map and nothing else.
pub proof fn lemma_without_key_view(m: Seq<(String, JsonValue)>, k: Seq<char>)
    ensures
        meta_view(without_key(m, k)) == meta_view(m).remove(k),
    decreases m.len(),
{
    if m.len() == 0 {
        assert(meta_view(m).remove(k) =~= Map::empty());
    } else {
        lemma_without_key_view(m.drop_last(), k);
        if m.last().0@ == k {
            assert(meta_view(m).remove(k) =~= meta_view(m.drop_last()).remove(k));
        } else {
            let w = without_key(m.drop_last(), k);
            assert(w.push(m.last()).drop_last() =~= w);
            assert(meta_view(w.push(m.last())) =~= meta_view(w).insert(m.last().0@, m.last().1@));
            assert(meta_view(m).remove(k) =~= meta_view(m.drop_last()).remove(k).insert(
                m.last().0@,
                m.last().1@,
            ));
        }
    }
}

/// The keys of the map are exactly the keys of the entries.
pub proof fn lemma_meta_view_keys(m: Seq<(String, JsonValue)>, k: Seq<char>)
    ensures
        meta_view(m).contains_key(k) <==> exists|i: int| 0 <= i < m.len() && (#[trigger] m[i]).0@ == k,
    decreases m.len(),
{
    if m.len() > 0 {
        lemma_meta_view_keys(m.drop_last(), k);
        if meta_view(m.drop_last()).contains_key(k) {
            let i = choose|i: int| 0 <= i < m.drop_last().len() && (#[trigger] m.drop_last()[i]).0@ == k;
            assert(m[i].0@ == k);
        }
        if exists|i: int| 0 <= i < m.len() && (#[trigger] m[i]).0@ == k {
            let i = choose|i: int| 0 <= i < m.len() && (#[trigger] m[i]).0@ == k;
            if i < m.len() - 1 {
                assert(m.drop_last()[i].0@ == k);
            }
        }
    }
}

/// When `i` is the last entry with key `k`, the map gives `k` the value of entry `i`.
pub proof fn lemma_meta_view_last(m: Seq<(String, JsonValue)>, i: int)
    requires
        0 <= i < m.len(),
        forall|j: int| i < j < m.len() ==> (#[trigger] m[j]).0@ != m[i].0@,
    ensures
        meta_view(m).contains_key(m[i].0@),
        meta_view(m)[m[i].0@] == m[i].1@,
    decreases m.len(),
{
    if i < m.len() - 1 {
        assert(m.drop_last()[i] == m[i]);
        assert forall|j: int| i < j < m.drop_last().len() implies (#[trigger] m.drop_last()[j]).0@ != m.drop_last()[i].0@ by {
            assert(m.drop_last()[j] == m[j]);
        }
        lemma_meta_view_last(m.drop_last(), i);
        assert(m[m.len() - 1].0@ != m[i].0@);
    }
}

/// Where the last entry with key `key` stands, if any.
pub fn meta_find_last(m: &Metadata, key: &str) -> (r: Option<usize>)
    ensures
        match r {
            Some(i) => i < m@.len() && m@[i as int].0@ == key@ && meta_view(m@).contains_key(key@)
                && meta_view(m@)[key@] == m@[i as int].1@,
            None => !meta_view(m@).contains_key(key@),
        },
{
    let k = chars_of(key);
    let mut i: usize = m.len();
    while i > 0
        invariant
            i <= m@.len(),
            k@ == key@,
            forall|j: int| i <= j < m@.len() ==> (#[trigger] m@[j]).0@ != key@,
        decreases i,
    {
        let c = chars_of(m[i - 1].0.as_str());
        if chars_eq(&c, &k) {
            proof {
                lemma_meta_view_last(m@, i - 1);
            }
            return Some(i - 1);
        }
        i = i - 1;
    }
    proof {
        lemma_meta_view_keys(m@, key@);
    }
    None
}

/// The value under `key`, if present.
pub fn meta_get<'a>(m: &'a Metadata, key: &str) -> (r: Option<&'a JsonValue>)
    ensures
        match r {
            Some(v) => meta_view(m@).contains_key(key@) && meta_view(m@)[key@] == v@,
            None => !meta_view(m@).contains_key(key@),
        },
{
    match meta_find_last(m, key) {
        Some(i) => Some(&m[i].1),
        None => None,
    }
}

/// The two entry sequences hold the same keys and values, position by position.
pub open spec fn same_entries(a: Seq<(String, JsonValue)>, b: Seq<(String, JsonValue)>) -> bool {
    a.len() == b.len() && forall|i: int| 0 <= i < a.len() ==> (#[trigger] a[i]).0@ == b[i].0@ && a[i].1@ == b[i].1@
}

/// Entries with the same keys and values describe the same map.
pub proof fn lemma_same_entries_view(a: Seq<(String, JsonValue)>, b: Seq<(String, JsonValue)>)
    requires
        same_entries(a, b),
    ensures
        meta_view(a) == meta_view(b),
    decreases a.len(),
{
    if a.len() > 0 {
        assert(same_entries(a.drop_last(), b.drop_last())) by {
            assert forall|i: int| 0 <= i < a.drop_last().len() implies (#[trigger] a.drop_last()[i]).0@
                == b.drop_last()[i].0@ && a.drop_last()[i].1@ == b.drop_last()[i].1@ by {
                assert(a.drop_last()[i] == a[i]);
                assert(b.drop_last()[i] == b[i]);
            }
        }
        lemma_same_entries_view(a.drop_last(), b.drop_last());
    }
}

/// Dropping a key never lengthens the entries, and shortens them when the key is there.
pub proof fn lemma_without_key_len(m: Seq<(String, JsonValue)>, k: Seq<char>)
    ensures
        without_key(m, k).len() <= m.len(),
        meta_view(m).contains_key(k) ==> without_key(m, k).len() < m.len(),
    decreases m.len(),
{
    if m.len() > 0 {
        lemma_without_key_len(m.drop_last(), k);
    }
}

/// Drops every entry whose key is `key`, keeping the others in order.
pub fn meta_drop_key(m: &mut Metadata, key: &str)
    ensures
        same_entries(final(m)@, without_key(old(m)@, key@)),
        meta_view(final(m)@) == meta_view(old(m)@).remove(key@),
        final(m)@.len() <= old(m)@.len(),
        meta_view(old(m)@).contains_key(key@) ==> final(m)@.len() < old(m)@.len(),
{
    let k = chars_of(key);
    let mut kept: Metadata = Vec::new();
    let ghost orig = m@;
    let mut i: usize = 0;
    while i < m.len()
        invariant
            i <= m@.len(),
            m@ == orig,
            k@ == key@,
            same_entries(kept@, without_key(orig.take(i as int), key@)),
        decreases m.len() - i,
    {
        assert(orig.take(i + 1).drop_last() =~= orig.take(i as int));
        assert(orig.take(i + 1).last() == orig[i as int]);
        let c = chars_of(m[i].0.as_str());
        if !chars_eq(&c, &k) {
            kept.push((m[i].0.clone(), m[i].1.copy()));
        }
        i = i + 1;
    }
    assert(orig.take(orig.len() as int) =~= orig);
    *m = kept;
    proof {
        lemma_without_key_view(orig, key@);
        lemma_same_entries_view(m@, without_key(orig, key@));
        lemma_without_key_len(orig, key@);
    }
}

/// Sets `key` to `value`, replacing any earlier value.
pub fn meta_insert(m: &mut Metadata, key: String, value: JsonValue)
    ensures
        meta_view(final(m)@) == meta_view(old(m)@).insert(key@, value@),
        final(m)@.len() <= old(m)@.len() + 1,
{
    meta_drop_key(m, key.as_str());
    let ghost before = m@;
    m.push((key, value));
    assert(m@.drop_last() =~= before);
    assert(meta_view(m@) =~= meta_view(before).insert(key@, value@));
}

/// Removes `key`, giving back its value if it was present.
pub fn meta_remove(m: &mut Metadata, key: &str) -> (r: Option<JsonValue>)
    ensures
        meta_view(final(m)@) == meta_view(old(m)@).remove(key@),
        final(m)@.len() <= old(m)@.len(),
        r is Some ==> final(m)@.len() < old(m)@.len(),
        match r {
            Some(v) => meta_view(old(m)@).contains_key(key@) && meta_view(old(m)@)[key@] == v@,
            None => !meta_view(old(m)@).contains_key(key@),
        },
{
    let found = match meta_get(m, key) {
        Some(v) => Some(v.copy()),
        None => None,
    };
    meta_drop_key(m, key);
    found
}

/// A deep copy of the entries.
pub fn meta_copy(m: &Metadata) -> (r: Metadata)
    ensures
        r@.len() == m@.len(),
        forall|i: int| 0 <= i < m@.len() ==> (#[trigger] r@[i]).0@ == m@[i].0@ && r@[i].1@ == m@[i].1@,
        meta_view(r@) == meta_view(m@),
{
    let mut r: Metadata = Vec::new();
    let mut i: usize = 0;
    while i < m.len()
        invariant
            i <= m@.len(),
            r@.len() == i,
            forall|j: int| 0 <= j < i ==> (#[trigger] r@[j]).0@ == m@[j].0@ && r@[j].1@ == m@[j].1@,
            meta_view(r@) == meta_view(m@.take(i as int)),
        decreases m.len() - i,
    {
        let ghost before = r@;
        r.push((m[i].0.clone(), m[i].1.copy()));
        assert(r@.drop_last() =~= before);
        assert(m@.take(i + 1).drop_last() =~= m@.take(i as int));
        i = i + 1;
    }
    assert(m@.take(m@.len() as int) =~= m@);
    r
}

} // verus!
