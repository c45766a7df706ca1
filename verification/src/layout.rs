//! Arranging a memory for locality, and the cleanup that drops orphaned relationships
//! and items without content.

use vstd::prelude::*;
use crate::batch::ends_among;
use crate::cleanup::MemoryCleanupResult;
use crate::item::SemanticItem;
use crate::json::{JsonData, JsonValue};
use crate::memory::{item_ids, well_formed_parts, SemanticMemory};
use crate::meta_quality::{is_white_space, is_white_space_char};
use crate::order::{arranged, keys_of, lemma_arranged_contains, sort_stably_by_keys, sorts_stably_by_text};
use crate::relationship::SemanticRelationship;
use crate::seqs::{lemma_filter_step, lemma_take_full};
use crate::text::{chars_of, owned};

verus! {

/// The sort key of an item: its id.
pub open spec fn item_key(it: SemanticItem) -> Seq<Seq<char>> {
    seq![it.id@]
}

/// The sort key of a relationship: its source, then its target.
pub open spec fn rel_key(r: SemanticRelationship) -> Seq<Seq<char>> {
    seq![r.source_id@, r.target_id@]
}

/// The sort keys of the items.
pub open spec fn item_keys(s: Seq<SemanticItem>) -> Seq<Seq<Seq<char>>> {
    s.map_values(|it: SemanticItem| item_key(it))
}

/// The sort keys of the relationships.
pub open spec fn rel_keys(s: Seq<SemanticRelationship>) -> Seq<Seq<Seq<char>>> {
    s.map_values(|r: SemanticRelationship| rel_key(r))
}

/// The content is a string of white space only.
pub open spec fn blank_content(it: SemanticItem) -> bool {
    it.content@ is Str && forall|i: int| 0 <= i < it.content@->Str_0.len() ==> is_white_space(#[trigger] it.content@->Str_0[i])
}

/// Keeps the items whose content is not blank.
pub open spec fn has_content() -> spec_fn(SemanticItem) -> bool {
    |it: SemanticItem| !blank_content(it)
}

/// Whether every character of `s` is white space.
fn all_white_space(s: &str) -> (r: bool)
    ensures
        r == forall|i: int| 0 <= i < s@.len() ==> is_white_space(#[trigger] s@[i]),
{
    let cs = chars_of(s);
    let mut i: usize = 0;
    while i < cs.len()
        invariant
            i <= cs@.len(),
            cs@ == s@,
            forall|j: int| 0 <= j < i ==> is_white_space(#[trigger] cs@[j]),
        decreases cs.len() - i,
    {
        if !is_white_space_char(cs[i]) {
            return false;
        }
        i = i + 1;
    }
    true
}

/// Rearranging the items and relationships keeps the memory well formed.
proof fn lemma_arranged_well_formed(
    items: Seq<SemanticItem>,
    rels: Seq<SemanticRelationship>,
    o1: Seq<usize>,
    o2: Seq<usize>,
)
    requires
        well_formed_parts(items, rels),
        sorts_stably_by_text(o1, item_keys(items)),
        sorts_stably_by_text(o2, rel_keys(rels)),
    ensures
        well_formed_parts(arranged(items, o1), arranged(rels, o2)),
{
    let a = arranged(items, o1);
    let b = arranged(rels, o2);
    lemma_arranged_contains(item_ids(items), o1, item_keys(items));
    assert(item_ids(a) =~= arranged(item_ids(items), o1));
    assert forall|i: int, j: int| 0 <= i < j < a.len() implies a[i].id@ != a[j].id@ by {
        assert(o1[i] != o1[j]);
        if o1[i] < o1[j] {
            assert(items[o1[i] as int].id@ != items[o1[j] as int].id@);
        } else {
            assert(items[o1[j] as int].id@ != items[o1[i] as int].id@);
        }
    }
    assert forall|i: int, j: int| 0 <= i < j < b.len() implies b[i].id@ != b[j].id@ by {
        assert(o2[i] != o2[j]);
        if o2[i] < o2[j] {
            assert(rels[o2[i] as int].id@ != rels[o2[j] as int].id@);
        } else {
            assert(rels[o2[j] as int].id@ != rels[o2[i] as int].id@);
        }
    }
    assert forall|k: int| 0 <= k < b.len() implies item_ids(a).contains((#[trigger] b[k]).source_id@) && item_ids(a).contains(
        b[k].target_id@,
    ) by {
        assert(b[k] == rels[o2[k] as int]);
        assert(item_ids(items).contains(rels[o2[k] as int].source_id@));
        assert(item_ids(items).contains(rels[o2[k] as int].target_id@));
    }
}

impl SemanticMemory {
    /// Orders the items by id and the relationships by source, then target, for
    /// locality; both sorts are stable.
    pub fn optimize_memory_layout(&mut self)
        ensures
            exists|o: Seq<usize>|
                #[trigger] sorts_stably_by_text(o, item_keys(old(self).items@)) && final(self).items@ == arranged(
                    old(self).items@,
                    o,
                ),
            exists|o: Seq<usize>|
                #[trigger] sorts_stably_by_text(o, rel_keys(old(self).relationships@)) && final(self).relationships@
                    == arranged(old(self).relationships@, o),
            final(self).base == old(self).base,
            old(self).well_formed() ==> final(self).well_formed(),
    {
        let ghost items0 = self.items@;
        let ghost rels0 = self.relationships@;
        let mut ikeys: Vec<Vec<String>> = Vec::new();
        let mut i: usize = 0;
        while i < self.items.len()
            invariant
                i <= self.items@.len(),
                self.items@ == items0,
                keys_of(ikeys@) == item_keys(items0).take(i as int),
            decreases self.items.len() - i,
        {
            let key = vec![owned(self.items[i].id.as_str())];
            let ghost before = ikeys@;
            ikeys.push(key);
            proof {
                assert(crate::order::texts(key@) =~= item_key(items0[i as int]));
                assert(keys_of(ikeys@) =~= keys_of(before).push(item_key(items0[i as int])));
                assert(item_keys(items0).take(i + 1) =~= item_keys(items0).take(i as int).push(item_key(items0[i as int])));
            }
            i = i + 1;
        }
        let mut rkeys: Vec<Vec<String>> = Vec::new();
        let mut j: usize = 0;
        while j < self.relationships.len()
            invariant
                j <= self.relationships@.len(),
                self.relationships@ == rels0,
                keys_of(rkeys@) == rel_keys(rels0).take(j as int),
            decreases self.relationships.len() - j,
        {
            let r = &self.relationships[j];
            let key = vec![owned(r.source_id.as_str()), owned(r.target_id.as_str())];
            let ghost before = rkeys@;
            rkeys.push(key);
            proof {
                assert(crate::order::texts(key@) =~= rel_key(rels0[j as int]));
                assert(keys_of(rkeys@) =~= keys_of(before).push(rel_key(rels0[j as int])));
                assert(rel_keys(rels0).take(j + 1) =~= rel_keys(rels0).take(j as int).push(rel_key(rels0[j as int])));
            }
            j = j + 1;
        }
        proof {
            assert(item_keys(items0).take(items0.len() as int) =~= item_keys(items0));
            assert(rel_keys(rels0).take(rels0.len() as int) =~= rel_keys(rels0));
        }
        let mut items: Vec<SemanticItem> = Vec::new();
        std::mem::swap(&mut items, &mut self.items);
        sort_stably_by_keys(&mut items, &mut ikeys);
        std::mem::swap(&mut items, &mut self.items);
        let mut rels: Vec<SemanticRelationship> = Vec::new();
        std::mem::swap(&mut rels, &mut self.relationships);
        sort_stably_by_keys(&mut rels, &mut rkeys);
        std::mem::swap(&mut rels, &mut self.relationships);
        proof {
            if well_formed_parts(items0, rels0) {
                let o1 = choose|o: Seq<usize>|
                    #[trigger] sorts_stably_by_text(o, item_keys(items0)) && self.items@ == arranged(items0, o);
                let o2 = choose|o: Seq<usize>|
                    #[trigger] sorts_stably_by_text(o, rel_keys(rels0)) && self.relationships@ == arranged(rels0, o);
                lemma_arranged_well_formed(items0, rels0, o1, o2);
            }
        }
    }

    /// Drops the relationships that name a missing item, then the items whose content
    /// is blank white space, then arranges what is left for locality
    /// (`optimize_memory_layout`); reports the counts.
    pub fn cleanup_memory(&mut self) -> (r: MemoryCleanupResult)
        ensures
            ({
                let rels1 = old(self).relationships@.filter(ends_among(item_ids(old(self).items@)));
                let items1 = old(self).items@.filter(has_content());
                &&& exists|o: Seq<usize>|
                    #[trigger] sorts_stably_by_text(o, item_keys(items1)) && final(self).items@ == arranged(items1, o)
                &&& exists|o: Seq<usize>|
                    #[trigger] sorts_stably_by_text(o, rel_keys(rels1)) && final(self).relationships@ == arranged(rels1, o)
                &&& r.orphaned_relationships_removed == old(self).relationships@.len() - rels1.len()
                &&& r.empty_items_removed == old(self).items@.len() - items1.len()
            }),
            r.initial_items == old(self).items@.len(),
            r.initial_relationships == old(self).relationships@.len(),
            r.final_items == final(self).items@.len(),
            r.final_relationships == final(self).relationships@.len(),
            final(self).base == old(self).base,
    {
        let initial_items = self.items.len();
        let initial_relationships = self.relationships.len();
        let orphaned = self.compact();
        let ghost items0 = self.items@;
        let ghost rels1 = self.relationships@;
        let ghost p = has_content();
        let mut taken: Vec<SemanticItem> = Vec::new();
        std::mem::swap(&mut taken, &mut self.items);
        let mut rest = taken;
        let mut kept: Vec<SemanticItem> = Vec::new();
        let n = rest.len();
        let mut i: usize = 0;
        while i < n
            invariant
                n == items0.len(),
                i <= n,
                rest@ == items0.skip(i as int),
                kept@ == items0.take(i as int).filter(p),
                p == has_content(),
                self.relationships@ == rels1,
                self.base == old(self).base,
            decreases n - i,
        {
            proof {
                lemma_filter_step(items0, i as int, p);
            }
            assert(rest@.len() > 0);
            let it = rest.remove(0);
            assert(rest@ =~= items0.skip(i + 1));
            assert(it == items0[i as int]);
            let blank = match &it.content {
                JsonValue::String(s) => {
                    assert(it.content@ == JsonData::Str(s@));
                    let b = all_white_space(s.as_str());
                    assert(b == blank_content(it));
                    b
                },
                _ => {
                    assert(!(it.content@ is Str));
                    assert(!blank_content(it));
                    false
                },
            };
            assert(blank == blank_content(items0[i as int]));
            assert(p(items0[i as int]) == !blank);
            if !blank {
                kept.push(it);
            }
            i = i + 1;
        }
        proof {
            lemma_take_full(items0);
            items0.lemma_filter_len(p);
        }
        self.items = kept;
        let empty_removed = initial_items - self.items.len();
        let ghost items1 = self.items@;
        self.optimize_memory_layout();
        proof {
            let o1 = choose|o: Seq<usize>|
                #[trigger] sorts_stably_by_text(o, item_keys(items1)) && self.items@ == arranged(items1, o);
            let o2 = choose|o: Seq<usize>|
                #[trigger] sorts_stably_by_text(o, rel_keys(rels1)) && self.relationships@ == arranged(rels1, o);
            assert(self.items@.len() == items1.len());
            assert(self.relationships@.len() == rels1.len());
        }
        MemoryCleanupResult {
            initial_items,
            initial_relationships,
            final_items: self.items.len(),
            final_relationships: self.relationships.len(),
            orphaned_relationships_removed: orphaned,
            empty_items_removed: empty_removed,
        }
    }
}

} // verus!
