//! Sorted and filtered views of an item's tags and metadata keys.

use vstd::prelude::*;
use crate::clock::now_millis;
use crate::item::{copy_strings, derefs, SemanticItem};
use crate::json::JsonValue;
use crate::meta::lemma_meta_view_keys;
use crate::order::{arranged, keys_of, sort_stably_by_keys, sorted_unique, sorts_stably_by_text, strictly_sorted, texts};
use crate::text::owned;

verus! {

/// The sort key of each tag: the tag alone.
pub open spec fn tag_keys(s: Seq<String>) -> Seq<Seq<Seq<char>>> {
    s.map_values(|t: String| seq![t@])
}

/// The elements of `s` whose answer is true, in order.
pub open spec fn selected<T>(s: Seq<T>, answers: Seq<bool>) -> Seq<T>
    decreases s.len(),
{
    if s.len() == 0 {
        Seq::empty()
    } else {
        selected(s.drop_last(), answers.drop_last()) + if answers.last() {
            seq![s.last()]
        } else {
            Seq::empty()
        }
    }
}

/// The keys of the metadata entries, in entry order.
pub open spec fn entry_keys(m: Seq<(String, JsonValue)>) -> Seq<Seq<char>> {
    m.map_values(|e: (String, JsonValue)| e.0@)
}

impl SemanticItem {
    /// The tags in sorted order, repeats kept.
    pub fn get_sorted_tags(&self) -> (r: Vec<String>)
        ensures
            exists|o: Seq<usize>| #[trigger] sorts_stably_by_text(o, tag_keys(self.tags@)) && r@ == arranged(self.tags@, o),
    {
        let mut sorted = copy_strings(&self.tags);
        let mut keys: Vec<Vec<String>> = Vec::new();
        let mut i: usize = 0;
        while i < self.tags.len()
            invariant
                i <= self.tags@.len(),
                keys_of(keys@) == tag_keys(self.tags@).take(i as int),
            decreases self.tags.len() - i,
        {
            let key = vec![owned(self.tags[i].as_str())];
            let ghost before = keys@;
            keys.push(key);
            proof {
                assert(texts(key@) =~= seq![self.tags@[i as int]@]);
                assert(keys_of(keys@) =~= keys_of(before).push(seq![self.tags@[i as int]@]));
                assert(tag_keys(self.tags@).take(i + 1) =~= tag_keys(self.tags@).take(i as int).push(seq![self.tags@[i as int]@]));
            }
            i = i + 1;
        }
        assert(tag_keys(self.tags@).take(self.tags@.len() as int) =~= tag_keys(self.tags@));
        sort_stably_by_keys(&mut sorted, &mut keys);
        sorted
    }

    /// The distinct tags, sorted.
    pub fn get_unique_tags(&self) -> (r: Vec<String>)
        ensures
            strictly_sorted(texts(r@)),
            forall|y: Seq<char>| #[trigger] texts(r@).contains(y) <==> self.tag_view().contains(y),
    {
        assert(texts(self.tags@) =~= self.tag_view());
        sorted_unique(&self.tags)
    }

    /// Sorts the tags and drops repeats; then the update time is stamped.
    pub fn normalize_tags(&mut self)
        ensures
            strictly_sorted(texts(final(self).tags@)),
            forall|y: Seq<char>| #[trigger] texts(final(self).tags@).contains(y) <==> old(self).tag_view().contains(y),
            final(self).same_but_tags(*old(self)),
    {
        let now = now_millis();
        self.normalize_tags_at(now)
    }

    /// As `normalize_tags`, with `now` as the time stamped.
    pub fn normalize_tags_at(&mut self, now: i64)
        ensures
            strictly_sorted(texts(final(self).tags@)),
            forall|y: Seq<char>| #[trigger] texts(final(self).tags@).contains(y) <==> old(self).tag_view().contains(y),
            final(self).same_but_tags(*old(self)),
            final(self).updated_at == now,
    {
        let t = self.get_unique_tags();
        self.tags = t;
        self.updated_at = now;
    }

    /// The tags for which `predicate` answers true, in order.
    pub fn filter_tags<F>(&self, predicate: F) -> (r: Vec<&String>) where F: Fn(&String) -> bool,
        requires
            forall|t: &String| #[trigger] predicate.requires((t,)),
        ensures
            exists|answers: Seq<bool>|
                {
                    &&& answers.len() == self.tags@.len()
                    &&& forall|i: int| 0 <= i < answers.len() ==> predicate.ensures((&self.tags@[i],), #[trigger] answers[i])
                    &&& derefs(r@) == selected(self.tags@, answers)
                },
    {
        let mut out: Vec<&String> = Vec::new();
        let ghost mut answers: Seq<bool> = Seq::empty();
        let mut i: usize = 0;
        assert(self.tags@.take(0) =~= Seq::<String>::empty());
        while i < self.tags.len()
            invariant
                i <= self.tags@.len(),
                forall|t: &String| #[trigger] predicate.requires((t,)),
                answers.len() == i,
                forall|k: int| 0 <= k < answers.len() ==> predicate.ensures((&self.tags@[k],), #[trigger] answers[k]),
                derefs(out@) == selected(self.tags@.take(i as int), answers),
            decreases self.tags.len() - i,
        {
            let ghost before = derefs(out@);
            let b = predicate(&self.tags[i]);
            if b {
                out.push(&self.tags[i]);
            }
            proof {
                let a1 = answers.push(b);
                let t1 = self.tags@.take(i + 1);
                assert(t1.drop_last() =~= self.tags@.take(i as int));
                assert(a1.drop_last() =~= answers);
                assert(t1.last() == self.tags@[i as int]);
                if b {
                    assert(derefs(out@) =~= before.push(self.tags@[i as int]));
                } else {
                    assert(derefs(out@) =~= before);
                }
                assert(derefs(out@) =~= selected(t1, a1));
                answers = a1;
            }
            i = i + 1;
        }
        assert(self.tags@.take(self.tags@.len() as int) =~= self.tags@);
        out
    }

    /// The metadata keys, sorted.
    pub fn get_sorted_metadata_keys(&self) -> (r: Vec<String>)
        ensures
            strictly_sorted(texts(r@)),
            forall|y: Seq<char>| #[trigger] texts(r@).contains(y) <==> self.meta().contains_key(y),
    {
        let m = &self.metadata;
        let mut keys: Vec<String> = Vec::new();
        let mut i: usize = 0;
        while i < m.len()
            invariant
                i <= m@.len(),
                m == &self.metadata,
                texts(keys@) == entry_keys(m@).take(i as int),
            decreases m.len() - i,
        {
            let ghost before = texts(keys@);
            keys.push(owned(m[i].0.as_str()));
            assert(texts(keys@) =~= before.push(m@[i as int].0@));
            assert(entry_keys(m@).take(i + 1) =~= entry_keys(m@).take(i as int).push(m@[i as int].0@));
            i = i + 1;
        }
        assert(entry_keys(m@).take(m@.len() as int) =~= entry_keys(m@));
        let r = sorted_unique(&keys);
        assert forall|y: Seq<char>| #[trigger] texts(r@).contains(y) <==> self.meta().contains_key(y) by {
            lemma_meta_view_keys(m@, y);
            if entry_keys(m@).contains(y) {
                let k = choose|k: int| 0 <= k < entry_keys(m@).len() && entry_keys(m@)[k] == y;
                assert(m@[k].0@ == y);
            }
            if self.meta().contains_key(y) {
                let k = choose|k: int| 0 <= k < m@.len() && (#[trigger] m@[k]).0@ == y;
                assert(entry_keys(m@)[k] == y);
            }
        }
        r
    }
}

} // verus!
