//! Finding items whose text content is close to a query.

use vstd::prelude::*;
use crate::item::{derefs, SemanticItem};
use crate::json::{JsonData, JsonValue};
use crate::memory::SemanticMemory;
use crate::order::{key_view, sorts_stably, stable_order};
use crate::queries::in_order;
use crate::seqs::{lemma_filter_step, lemma_take_full};
use crate::similarity::{edit_distance, lev};
use crate::text::{chars_of, lowercase, to_lowercase};

verus! {

/// How far an item's content is from the query: the Levenshtein distance, over
/// characters, of the lower-cased content and the lower-cased query. Only string
/// content is measured, and only texts shorter than the largest size.
pub open spec fn fuzzy_distance(it: SemanticItem, q: Seq<char>) -> Option<int> {
    if it.content@ is Str && lowercase(it.content@->Str_0).len() < usize::MAX && lowercase(q).len() < usize::MAX {
        Some(lev(lowercase(it.content@->Str_0), lowercase(q)))
    } else {
        None
    }
}

/// Keeps the items within `max` of the query.
pub open spec fn fuzzy_match(q: Seq<char>, max: usize) -> spec_fn(SemanticItem) -> bool {
    |it: SemanticItem| fuzzy_distance(it, q) is Some && fuzzy_distance(it, q)->Some_0 <= max
}

/// The distances of the items, as sort keys.
pub open spec fn fuzzy_keys(s: Seq<SemanticItem>, q: Seq<char>) -> Seq<int> {
    s.map_values(|it: SemanticItem| fuzzy_distance(it, q)->Some_0)
}

/// The items of a list of pairs.
pub open spec fn firsts(s: Seq<(&SemanticItem, usize)>) -> Seq<SemanticItem> {
    Seq::new(s.len(), |i: int| *s[i].0)
}

impl SemanticMemory {
    /// The items whose content is within `max_distance` edits of `query` (both
    /// lower-cased), each with its distance, closest first; items as close keep their
    /// order.
    pub fn find_items_by_fuzzy_content(&self, query: &str, max_distance: usize) -> (r: Vec<(&SemanticItem, usize)>)
        ensures
            ({
                let hits = self.items@.filter(fuzzy_match(query@, max_distance));
                exists|ord: Seq<usize>| #[trigger] sorts_stably(ord, fuzzy_keys(hits, query@)) && firsts(r@) == in_order(hits, ord)
            }),
            forall|i: int| 0 <= i < r@.len() ==> fuzzy_distance(*(#[trigger] r@[i]).0, query@) == Some(r@[i].1 as int),
    {
        let lq = to_lowercase(query);
        let qv = chars_of(lq.as_str());
        let ghost items = self.items@;
        let ghost p = fuzzy_match(query@, max_distance);
        let mut hits: Vec<&SemanticItem> = Vec::new();
        let mut dists: Vec<usize> = Vec::new();
        let mut keys: Vec<i128> = Vec::new();
        let mut i: usize = 0;
        while i < self.items.len()
            invariant
                items == self.items@,
                i <= items.len(),
                p == fuzzy_match(query@, max_distance),
                qv@ == lowercase(query@),
                derefs(hits@) == items.take(i as int).filter(p),
                dists@.len() == hits@.len(),
                forall|k: int| 0 <= k < hits@.len() ==> fuzzy_distance(*(#[trigger] hits@[k]), query@) == Some(dists@[k] as int),
                key_view(keys@) == fuzzy_keys(derefs(hits@), query@),
            decreases items.len() - i,
        {
            proof {
                lemma_filter_step(items, i as int, p);
            }
            let it = &self.items[i];
            let ghost hb = derefs(hits@);
            let ghost kb = key_view(keys@);
            match &it.content {
                JsonValue::String(s) => {
                    assert(it.content@ == JsonData::Str(s@));
                    let lc = to_lowercase(s.as_str());
                    let cv = chars_of(lc.as_str());
                    if cv.len() < usize::MAX && qv.len() < usize::MAX {
                        let d = edit_distance(&cv, &qv);
                        assert(fuzzy_distance(*it, query@) == Some(d as int));
                        if d <= max_distance {
                            hits.push(it);
                            dists.push(d);
                            keys.push(d as i128);
                            proof {
                                assert(derefs(hits@) =~= hb.push(*it));
                                assert(key_view(keys@) =~= kb.push(d as int));
                                assert(fuzzy_keys(derefs(hits@), query@) =~= fuzzy_keys(hb, query@).push(d as int));
                            }
                        } else {
                            assert(!p(*it));
                        }
                    } else {
                        assert(!p(*it));
                    }
                },
                _ => {
                    assert(!(it.content@ is Str));
                    assert(!p(*it));
                },
            }
            i = i + 1;
        }
        proof {
            lemma_take_full(items);
        }
        let ord = stable_order(&keys);
        let mut out: Vec<(&SemanticItem, usize)> = Vec::new();
        let mut j: usize = 0;
        while j < ord.len()
            invariant
                j <= ord@.len(),
                sorts_stably(ord@, key_view(keys@)),
                key_view(keys@).len() == hits@.len(),
                dists@.len() == hits@.len(),
                forall|k: int| 0 <= k < hits@.len() ==> fuzzy_distance(*(#[trigger] hits@[k]), query@) == Some(dists@[k] as int),
                firsts(out@) == in_order(derefs(hits@), ord@.take(j as int)),
                forall|k: int| 0 <= k < out@.len() ==> fuzzy_distance(*(#[trigger] out@[k]).0, query@) == Some(out@[k].1 as int),
            decreases ord.len() - j,
        {
            let ghost before = firsts(out@);
            let x = ord[j];
            assert(x < hits@.len());
            out.push((hits[x], dists[x]));
            proof {
                assert(firsts(out@) =~= before.push(*hits@[x as int]));
                assert(ord@.take(j + 1) =~= ord@.take(j as int).push(x));
                assert(in_order(derefs(hits@), ord@.take(j + 1)) =~= in_order(derefs(hits@), ord@.take(j as int)).push(
                    derefs(hits@)[x as int],
                ));
            }
            j = j + 1;
        }
        assert(ord@.take(ord@.len() as int) =~= ord@);
        out
    }
}

} // verus!
