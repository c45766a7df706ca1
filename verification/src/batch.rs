//! Operations over many items or relationships at once, and their reports.

use vstd::prelude::*;
use crate::error::MemoryError;
use crate::item::{first_at, strings_view, SemanticItem};
use crate::memory::{find_item, find_relationship, item_ids, not_involving, rel_ids, BaseMemory, SemanticMemory};
use crate::json::JsonData;
use crate::meta::{meta_insert, meta_view, Metadata};
use crate::relationship::SemanticRelationship;
use crate::seqs::lemma_take_full;
use crate::text::owned;

verus! {

/// The items after adding each of `incoming` in turn to `base`, skipping those whose
/// id is already present.
pub open spec fn items_after(base: Seq<SemanticItem>, incoming: Seq<SemanticItem>) -> Seq<SemanticItem>
    decreases incoming.len(),
{
    if incoming.len() == 0 {
        base
    } else {
        let b = items_after(base, incoming.drop_last());
        if item_ids(b).contains(incoming.last().id@) {
            b
        } else {
            b.push(incoming.last())
        }
    }
}

/// The ids of the items of `incoming` that were added, in order.
pub open spec fn added_item_ids(base: Seq<SemanticItem>, incoming: Seq<SemanticItem>) -> Seq<Seq<char>>
    decreases incoming.len(),
{
    if incoming.len() == 0 {
        Seq::empty()
    } else {
        let a = added_item_ids(base, incoming.drop_last());
        if item_ids(items_after(base, incoming.drop_last())).contains(incoming.last().id@) {
            a
        } else {
            a.push(incoming.last().id@)
        }
    }
}

/// The ids of the items of `incoming` that were skipped, in order.
pub open spec fn skipped_item_ids(base: Seq<SemanticItem>, incoming: Seq<SemanticItem>) -> Seq<Seq<char>>
    decreases incoming.len(),
{
    if incoming.len() == 0 {
        Seq::empty()
    } else {
        let a = skipped_item_ids(base, incoming.drop_last());
        if item_ids(items_after(base, incoming.drop_last())).contains(incoming.last().id@) {
            a.push(incoming.last().id@)
        } else {
            a
        }
    }
}

/// A relationship is accepted into `rels` over `items`: both ends exist and its id is new.
pub open spec fn rel_accepted(items: Seq<SemanticItem>, rels: Seq<SemanticRelationship>, r: SemanticRelationship) -> bool {
    item_ids(items).contains(r.source_id@) && item_ids(items).contains(r.target_id@) && !rel_ids(rels).contains(r.id@)
}

/// The relationships after adding each of `incoming` in turn to `base` over `items`,
/// skipping those that are refused.
pub open spec fn rels_after(items: Seq<SemanticItem>, base: Seq<SemanticRelationship>, incoming: Seq<SemanticRelationship>) -> Seq<SemanticRelationship>
    decreases incoming.len(),
{
    if incoming.len() == 0 {
        base
    } else {
        let b = rels_after(items, base, incoming.drop_last());
        if rel_accepted(items, b, incoming.last()) {
            b.push(incoming.last())
        } else {
            b
        }
    }
}

/// The ids of the relationships of `incoming` that were added, in order.
pub open spec fn added_rel_ids(items: Seq<SemanticItem>, base: Seq<SemanticRelationship>, incoming: Seq<SemanticRelationship>) -> Seq<Seq<char>>
    decreases incoming.len(),
{
    if incoming.len() == 0 {
        Seq::empty()
    } else {
        let a = added_rel_ids(items, base, incoming.drop_last());
        if rel_accepted(items, rels_after(items, base, incoming.drop_last()), incoming.last()) {
            a.push(incoming.last().id@)
        } else {
            a
        }
    }
}

/// The message that refuses `r` over `items` and `rels`: a missing source is
/// reported before a missing target, and both before a duplicate id.
pub open spec fn refusal_message(items: Seq<SemanticItem>, rels: Seq<SemanticRelationship>, r: SemanticRelationship) -> Seq<char> {
    if !item_ids(items).contains(r.source_id@) {
        "Source item '"@ + r.source_id@ + "' not found"@
    } else if !item_ids(items).contains(r.target_id@) {
        "Target item '"@ + r.target_id@ + "' not found"@
    } else {
        "Relationship with ID '"@ + r.id@ + "' already exists"@
    }
}

/// The ids of the relationships of `incoming` that were refused, each with its
/// message, in order.
pub open spec fn refused_rels(items: Seq<SemanticItem>, base: Seq<SemanticRelationship>, incoming: Seq<SemanticRelationship>) -> Seq<(Seq<char>, Seq<char>)>
    decreases incoming.len(),
{
    if incoming.len() == 0 {
        Seq::empty()
    } else {
        let a = refused_rels(items, base, incoming.drop_last());
        let b = rels_after(items, base, incoming.drop_last());
        if rel_accepted(items, b, incoming.last()) {
            a
        } else {
            a.push((incoming.last().id@, refusal_message(items, b, incoming.last())))
        }
    }
}

/// The characters of each pair of strings.
pub open spec fn pairs_view(v: Seq<(String, String)>) -> Seq<(Seq<char>, Seq<char>)> {
    v.map_values(|p: (String, String)| (p.0@, p.1@))
}

/// Adding a batch adds one item per accepted id and skips the others.
pub proof fn lemma_items_after_len(base: Seq<SemanticItem>, incoming: Seq<SemanticItem>)
    ensures
        items_after(base, incoming).len() == base.len() + added_item_ids(base, incoming).len(),
        added_item_ids(base, incoming).len() + skipped_item_ids(base, incoming).len() == incoming.len(),
    decreases incoming.len(),
{
    if incoming.len() > 0 {
        lemma_items_after_len(base, incoming.drop_last());
    }
}

/// Adding a batch of relationships adds one per accepted id and skips the others.
pub proof fn lemma_rels_after_len(items: Seq<SemanticItem>, base: Seq<SemanticRelationship>, incoming: Seq<SemanticRelationship>)
    ensures
        rels_after(items, base, incoming).len() == base.len() + added_rel_ids(items, base, incoming).len(),
        added_rel_ids(items, base, incoming).len() + refused_rels(items, base, incoming).len() == incoming.len(),
    decreases incoming.len(),
{
    if incoming.len() > 0 {
        lemma_rels_after_len(items, base, incoming.drop_last());
    }
}

/// The first position of `x` in `s`.
pub open spec fn first_pos(s: Seq<Seq<char>>, x: Seq<char>) -> int {
    choose|i: int| first_at(s, x, i)
}

/// The first position is the only one where `x` first occurs.
pub proof fn lemma_first_pos(s: Seq<Seq<char>>, x: Seq<char>, i: int)
    requires
        first_at(s, x, i),
    ensures
        first_pos(s, x) == i,
{
    let j = first_pos(s, x);
    assert(first_at(s, x, j));
    if j < i {
        assert(s[j] != x);
    } else if j > i {
        assert(s[i] != x);
    }
}

/// Items and relationships after removing the first item with id `id` and every
/// relationship that touches `id`; unchanged when no item has that id.
pub open spec fn after_item_removal(m: (Seq<SemanticItem>, Seq<SemanticRelationship>), id: Seq<char>) -> (Seq<SemanticItem>, Seq<SemanticRelationship>) {
    if item_ids(m.0).contains(id) {
        (m.0.remove(first_pos(item_ids(m.0), id)), m.1.filter(not_involving(id)))
    } else {
        m
    }
}

/// Items and relationships after removing each id of `ids` in turn.
pub open spec fn after_item_removals(m: (Seq<SemanticItem>, Seq<SemanticRelationship>), ids: Seq<Seq<char>>) -> (Seq<SemanticItem>, Seq<SemanticRelationship>)
    decreases ids.len(),
{
    if ids.len() == 0 {
        m
    } else {
        after_item_removal(after_item_removals(m, ids.drop_last()), ids.last())
    }
}

/// The ids of `ids` that removed an item, in order.
pub open spec fn removed_item_ids(m: (Seq<SemanticItem>, Seq<SemanticRelationship>), ids: Seq<Seq<char>>) -> Seq<Seq<char>>
    decreases ids.len(),
{
    if ids.len() == 0 {
        Seq::empty()
    } else if item_ids(after_item_removals(m, ids.drop_last()).0).contains(ids.last()) {
        removed_item_ids(m, ids.drop_last()).push(ids.last())
    } else {
        removed_item_ids(m, ids.drop_last())
    }
}

/// The ids of `ids` that matched no item when their turn came, in order.
pub open spec fn missing_item_ids(m: (Seq<SemanticItem>, Seq<SemanticRelationship>), ids: Seq<Seq<char>>) -> Seq<Seq<char>>
    decreases ids.len(),
{
    if ids.len() == 0 {
        Seq::empty()
    } else if item_ids(after_item_removals(m, ids.drop_last()).0).contains(ids.last()) {
        missing_item_ids(m, ids.drop_last())
    } else {
        missing_item_ids(m, ids.drop_last()).push(ids.last())
    }
}

/// Relationships after removing the first one with id `id`; unchanged when none has it.
pub open spec fn after_rel_removal(rels: Seq<SemanticRelationship>, id: Seq<char>) -> Seq<SemanticRelationship> {
    if rel_ids(rels).contains(id) {
        rels.remove(first_pos(rel_ids(rels), id))
    } else {
        rels
    }
}

/// Relationships after removing each id of `ids` in turn.
pub open spec fn after_rel_removals(rels: Seq<SemanticRelationship>, ids: Seq<Seq<char>>) -> Seq<SemanticRelationship>
    decreases ids.len(),
{
    if ids.len() == 0 {
        rels
    } else {
        after_rel_removal(after_rel_removals(rels, ids.drop_last()), ids.last())
    }
}

/// The ids of `ids` that removed a relationship, in order.
pub open spec fn removed_rel_ids(rels: Seq<SemanticRelationship>, ids: Seq<Seq<char>>) -> Seq<Seq<char>>
    decreases ids.len(),
{
    if ids.len() == 0 {
        Seq::empty()
    } else if rel_ids(after_rel_removals(rels, ids.drop_last())).contains(ids.last()) {
        removed_rel_ids(rels, ids.drop_last()).push(ids.last())
    } else {
        removed_rel_ids(rels, ids.drop_last())
    }
}

/// The ids of `ids` that matched no relationship when their turn came, in order.
pub open spec fn missing_rel_ids(rels: Seq<SemanticRelationship>, ids: Seq<Seq<char>>) -> Seq<Seq<char>>
    decreases ids.len(),
{
    if ids.len() == 0 {
        Seq::empty()
    } else if rel_ids(after_rel_removals(rels, ids.drop_last())).contains(ids.last()) {
        missing_rel_ids(rels, ids.drop_last())
    } else {
        missing_rel_ids(rels, ids.drop_last()).push(ids.last())
    }
}

/// The ids the updates name, in order.
pub open spec fn update_ids(updates: Seq<(String, Metadata)>) -> Seq<Seq<char>> {
    updates.map_values(|u: (String, Metadata)| u.0@)
}

/// Keeps the ids that occur in `ids`.
pub open spec fn present_in(ids: Seq<Seq<char>>) -> spec_fn(Seq<char>) -> bool {
    |x: Seq<char>| ids.contains(x)
}

/// Keeps the ids that do not occur in `ids`.
pub open spec fn absent_from(ids: Seq<Seq<char>>) -> spec_fn(Seq<char>) -> bool {
    |x: Seq<char>| !ids.contains(x)
}

/// Each id paired with the same message.
pub open spec fn with_message(ids: Seq<Seq<char>>, msg: Seq<char>) -> Seq<(Seq<char>, Seq<char>)> {
    ids.map_values(|x: Seq<char>| (x, msg))
}

/// The metadata `m` of the entry with id `id` after every update naming `id` is
/// applied in turn, later keys winning.
pub open spec fn meta_after_updates(m: Map<Seq<char>, JsonData>, updates: Seq<(String, Metadata)>, id: Seq<char>) -> Map<Seq<char>, JsonData>
    decreases updates.len(),
{
    if updates.len() == 0 {
        m
    } else {
        let b = meta_after_updates(m, updates.drop_last(), id);
        if updates.last().0@ == id {
            b.union_prefer_right(meta_view(updates.last().1@))
        } else {
            b
        }
    }
}

/// Everything but the metadata is as in `other`.
pub open spec fn same_but_relationship_metadata(a: SemanticRelationship, b: SemanticRelationship) -> bool {
    &&& a.id == b.id
    &&& a.source_id == b.source_id
    &&& a.target_id == b.target_id
    &&& a.relationship_type == b.relationship_type
    &&& a.confidence == b.confidence
    &&& a.created_at == b.created_at
    &&& a.updated_at == b.updated_at
}

/// Filtering one more element of the update ids.
pub proof fn lemma_update_ids_step(updates: Seq<(String, Metadata)>, i: int, p: spec_fn(Seq<char>) -> bool)
    requires
        0 <= i < updates.len(),
    ensures
        update_ids(updates.take(i + 1)) == update_ids(updates.take(i)).push(updates[i].0@),
        update_ids(updates.take(i + 1)).filter(p) == (if p(updates[i].0@) {
            update_ids(updates.take(i)).filter(p).push(updates[i].0@)
        } else {
            update_ids(updates.take(i)).filter(p)
        }),
{
    assert(update_ids(updates.take(i + 1)) =~= update_ids(updates.take(i)).push(updates[i].0@));
    let u = update_ids(updates.take(i + 1));
    crate::seqs::lemma_filter_step(u, i, p);
    assert(u.take(i + 1) =~= u);
    assert(u.take(i) =~= update_ids(updates.take(i)));
}

/// `a` is a copy of `b`: the same fields, the metadata with the same entries by key.
pub open spec fn item_copy_of(a: SemanticItem, b: SemanticItem) -> bool {
    &&& a.id == b.id
    &&& a.item_type == b.item_type
    &&& a.category == b.category
    &&& a.content@ == b.content@
    &&& a.tags@ == b.tags@
    &&& a.confidence == b.confidence
    &&& a.created_at == b.created_at
    &&& a.updated_at == b.updated_at
    &&& a.meta() == b.meta()
}

/// `a` is a copy of `b`: the same fields, the metadata with the same entries by key.
pub open spec fn rel_copy_of(a: SemanticRelationship, b: SemanticRelationship) -> bool {
    &&& a.id == b.id
    &&& a.source_id == b.source_id
    &&& a.target_id == b.target_id
    &&& crate::relationship::same_relationship_type(a.relationship_type, b.relationship_type)
    &&& a.confidence == b.confidence
    &&& a.created_at == b.created_at
    &&& a.updated_at == b.updated_at
    &&& meta_view(a.metadata@) == meta_view(b.metadata@)
}

/// The elements of `s` whose flag in `keep` is set, in order.
pub open spec fn picked<A>(s: Seq<A>, keep: Seq<bool>) -> Seq<A>
    decreases s.len(),
{
    if s.len() == 0 || keep.len() != s.len() {
        Seq::empty()
    } else if keep.last() {
        picked(s.drop_last(), keep.drop_last()).push(s.last())
    } else {
        picked(s.drop_last(), keep.drop_last())
    }
}

/// Keeps the relationships whose both ends are among `ids`.
pub open spec fn ends_among(ids: Seq<Seq<char>>) -> spec_fn(SemanticRelationship) -> bool {
    |r: SemanticRelationship| ids.contains(r.source_id@) && ids.contains(r.target_id@)
}

/// The items of `a` are copies of those of `b`, in order.
pub open spec fn item_copies(a: Seq<SemanticItem>, b: Seq<SemanticItem>) -> bool {
    a.len() == b.len() && forall|i: int| 0 <= i < a.len() ==> item_copy_of(#[trigger] a[i], b[i])
}

/// The relationships of `a` are copies of those of `b`, in order.
pub open spec fn rel_copies(a: Seq<SemanticRelationship>, b: Seq<SemanticRelationship>) -> bool {
    a.len() == b.len() && forall|i: int| 0 <= i < a.len() ==> rel_copy_of(#[trigger] a[i], b[i])
}

/// A copy of the memory `m` keeping the items flagged by `keep` and the relationships
/// whose both ends are kept items.
pub open spec fn filtered_copy(m: SemanticMemory, keep: Seq<bool>, r: SemanticMemory) -> bool {
    &&& keep.len() == m.items@.len()
    &&& item_copies(r.items@, picked(m.items@, keep))
    &&& rel_copies(r.relationships@, m.relationships@.filter(ends_among(item_ids(picked(m.items@, keep)))))
}

/// What a batch operation did with each entry.
#[derive(Debug)]
pub struct BatchOperationResult {
    /// Ids that were handled, in order.
    pub successful: Vec<String>,
    /// Ids that were refused, each with the reason, in order.
    pub failed: Vec<(String, String)>,
    /// Number of entries handled or refused.
    pub total_processed: usize,
}

impl BatchOperationResult {
    /// Whether nothing was refused.
    pub fn is_fully_successful(&self) -> (r: bool)
        ensures
            r == (self.failed@.len() == 0),
    {
        self.failed.len() == 0
    }

    /// The counts behind the success rate: handled entries over all processed (the rate
    /// is 100% when nothing was processed).
    pub fn success_counts(&self) -> (r: (usize, usize))
        ensures
            r == (self.successful@.len() as usize, self.total_processed),
    {
        (self.successful.len(), self.total_processed)
    }
}

/// What a batch removal did with each id.
#[derive(Debug)]
pub struct BatchRemovalResult {
    /// Ids that were removed, in order.
    pub removed: Vec<String>,
    /// Ids that matched nothing, in order.
    pub not_found: Vec<String>,
    /// Number of ids processed.
    pub total_processed: usize,
}

/// What merging one memory into another did.
#[derive(Debug, Clone, Copy)]
pub struct MergeResult {
    /// Items added.
    pub items_added: usize,
    /// Items skipped because their id was present.
    pub items_skipped: usize,
    /// Relationships added.
    pub relationships_added: usize,
    /// Relationships refused.
    pub relationships_skipped: usize,
}

impl MergeResult {
    /// Items added plus items skipped.
    pub fn total_items_processed(&self) -> (r: usize)
        requires
            self.items_added + self.items_skipped <= usize::MAX,
        ensures
            r == self.items_added + self.items_skipped,
    {
        self.items_added + self.items_skipped
    }

    /// Relationships added plus relationships refused.
    pub fn total_relationships_processed(&self) -> (r: usize)
        requires
            self.relationships_added + self.relationships_skipped <= usize::MAX,
        ensures
            r == self.relationships_added + self.relationships_skipped,
    {
        self.relationships_added + self.relationships_skipped
    }
}

impl SemanticMemory {
    /// Adds each item in turn; an item whose id is already present is skipped. Gives
    /// the number added (always `Ok`).
    pub fn add_items(&mut self, items: Vec<SemanticItem>) -> (r: Result<usize, MemoryError>)
        ensures
            final(self).items@ == items_after(old(self).items@, items@),
            r == Ok::<usize, MemoryError>(added_item_ids(old(self).items@, items@).len() as usize),
            final(self).relationships@ == old(self).relationships@,
            final(self).base == old(self).base,
            old(self).well_formed() ==> final(self).well_formed(),
    {
        let res = self.add_each_item(items);
        Ok(res.successful.len())
    }

    /// Adds each item in turn, reporting the ids added and, for the ids skipped because
    /// they were present, the refusal message (always `Ok`).
    pub fn batch_add_items(&mut self, items: Vec<SemanticItem>) -> (r: Result<BatchOperationResult, MemoryError>)
        ensures
            r is Ok,
            final(self).items@ == items_after(old(self).items@, items@),
            strings_view(r->Ok_0.successful@) == added_item_ids(old(self).items@, items@),
            r->Ok_0.failed@.len() == skipped_item_ids(old(self).items@, items@).len(),
            forall|i: int|
                0 <= i < r->Ok_0.failed@.len() ==> (#[trigger] r->Ok_0.failed@[i]).0@ == skipped_item_ids(
                    old(self).items@,
                    items@,
                )[i] && r->Ok_0.failed@[i].1@ == "Item with ID '"@ + r->Ok_0.failed@[i].0@ + "' already exists"@,
            r->Ok_0.total_processed == items@.len(),
            final(self).relationships@ == old(self).relationships@,
            final(self).base == old(self).base,
            old(self).well_formed() ==> final(self).well_formed(),
    {
        Ok(self.add_each_item(items))
    }

    /// Adds each item in turn; see [`SemanticMemory::batch_add_items`].
    fn add_each_item(&mut self, items: Vec<SemanticItem>) -> (r: BatchOperationResult)
        ensures
            final(self).items@ == items_after(old(self).items@, items@),
            strings_view(r.successful@) == added_item_ids(old(self).items@, items@),
            r.failed@.len() == skipped_item_ids(old(self).items@, items@).len(),
            forall|i: int| 0 <= i < r.failed@.len() ==> (#[trigger] r.failed@[i]).0@ == skipped_item_ids(old(self).items@, items@)[i]
                && r.failed@[i].1@ == "Item with ID '"@ + r.failed@[i].0@ + "' already exists"@,
            r.total_processed == items@.len(),
            final(self).relationships@ == old(self).relationships@,
            final(self).base == old(self).base,
            old(self).well_formed() ==> final(self).well_formed(),
    {
        let ghost base = self.items@;
        let ghost all = items@;
        let mut rest = items;
        let mut added: Vec<String> = Vec::new();
        let mut failed: Vec<(String, String)> = Vec::new();
        let n = rest.len();
        let mut i: usize = 0;
        proof {
            lemma_items_after_len(base, all.take(0));
        }
        while i < n
            invariant
                n == all.len(),
                i <= n,
                rest@ == all.skip(i as int),
                self.items@ == items_after(base, all.take(i as int)),
                strings_view(added@) == added_item_ids(base, all.take(i as int)),
                failed@.len() == skipped_item_ids(base, all.take(i as int)).len(),
                forall|k: int| 0 <= k < failed@.len() ==> (#[trigger] failed@[k]).0@ == skipped_item_ids(base, all.take(i as int))[k]
                    && failed@[k].1@ == "Item with ID '"@ + failed@[k].0@ + "' already exists"@,
                added@.len() + failed@.len() == i,
                self.relationships@ == old(self).relationships@,
                self.base == old(self).base,
                old(self).well_formed() ==> self.well_formed(),
            decreases n - i,
        {
            let ghost t = all.take(i + 1);
            proof {
                assert(t.drop_last() =~= all.take(i as int));
                assert(t.last() == all[i as int]);
            }
            let item = rest.remove(0);
            assert(rest@ =~= all.skip(i + 1));
            let id = item.id.clone();
            let ghost before_failed = failed@;
            let ghost before_added = added@;
            match self.add_item(item) {
                Ok(()) => {
                    added.push(id);
                    proof {
                        assert(strings_view(added@) =~= strings_view(before_added).push(id@));
                    }
                },
                Err(e) => {
                    let msg = e.message().clone();
                    failed.push((id, msg));
                    proof {
                        assert forall|k: int| 0 <= k < failed@.len() implies (#[trigger] failed@[k]).0@ == skipped_item_ids(base, t)[k]
                            && failed@[k].1@ == "Item with ID '"@ + failed@[k].0@ + "' already exists"@ by {
                            if k < before_failed.len() {
                                assert(failed@[k] == before_failed[k]);
                            }
                        }
                    }
                },
            }
            i = i + 1;
        }
        proof {
            lemma_take_full(all);
        }
        let total = added.len() + failed.len();
        BatchOperationResult { successful: added, failed, total_processed: total }
    }

    /// Adds each relationship in turn; a refused one is skipped. Gives the number added
    /// (always `Ok`).
    pub fn add_relationships(&mut self, relationships: Vec<SemanticRelationship>) -> (r: Result<usize, MemoryError>)
        ensures
            final(self).relationships@ == rels_after(old(self).items@, old(self).relationships@, relationships@),
            r == Ok::<usize, MemoryError>(added_rel_ids(old(self).items@, old(self).relationships@, relationships@).len() as usize),
            final(self).items@ == old(self).items@,
            final(self).base == old(self).base,
            old(self).well_formed() ==> final(self).well_formed(),
    {
        let res = self.add_each_relationship(relationships);
        Ok(res.successful.len())
    }

    /// Adds each relationship in turn, reporting the ids added and, for the ids
    /// refused, the refusal message (always `Ok`).
    pub fn batch_add_relationships(&mut self, relationships: Vec<SemanticRelationship>) -> (r: Result<BatchOperationResult, MemoryError>)
        ensures
            r is Ok,
            final(self).relationships@ == rels_after(old(self).items@, old(self).relationships@, relationships@),
            strings_view(r->Ok_0.successful@) == added_rel_ids(old(self).items@, old(self).relationships@, relationships@),
            pairs_view(r->Ok_0.failed@) == refused_rels(old(self).items@, old(self).relationships@, relationships@),
            r->Ok_0.total_processed == relationships@.len(),
            final(self).items@ == old(self).items@,
            final(self).base == old(self).base,
            old(self).well_formed() ==> final(self).well_formed(),
    {
        Ok(self.add_each_relationship(relationships))
    }

    /// Adds each relationship in turn; see [`SemanticMemory::batch_add_relationships`].
    fn add_each_relationship(&mut self, relationships: Vec<SemanticRelationship>) -> (r: BatchOperationResult)
        ensures
            final(self).relationships@ == rels_after(old(self).items@, old(self).relationships@, relationships@),
            strings_view(r.successful@) == added_rel_ids(old(self).items@, old(self).relationships@, relationships@),
            pairs_view(r.failed@) == refused_rels(old(self).items@, old(self).relationships@, relationships@),
            r.total_processed == relationships@.len(),
            final(self).items@ == old(self).items@,
            final(self).base == old(self).base,
            old(self).well_formed() ==> final(self).well_formed(),
    {
        let ghost items = self.items@;
        let ghost base = self.relationships@;
        let ghost all = relationships@;
        let mut rest = relationships;
        let mut added: Vec<String> = Vec::new();
        let mut failed: Vec<(String, String)> = Vec::new();
        let n = rest.len();
        let mut i: usize = 0;
        proof {
            lemma_rels_after_len(items, base, all.take(0));
            assert(all.take(0) =~= Seq::<SemanticRelationship>::empty());
        }
        while i < n
            invariant
                n == all.len(),
                i <= n,
                rest@ == all.skip(i as int),
                self.items@ == items,
                self.relationships@ == rels_after(items, base, all.take(i as int)),
                strings_view(added@) == added_rel_ids(items, base, all.take(i as int)),
                pairs_view(failed@) == refused_rels(items, base, all.take(i as int)),
                added@.len() + failed@.len() == i,
                self.base == old(self).base,
                old(self).well_formed() ==> self.well_formed(),
            decreases n - i,
        {
            let ghost t = all.take(i + 1);
            proof {
                assert(t.drop_last() =~= all.take(i as int));
                assert(t.last() == all[i as int]);
                lemma_rels_after_len(items, base, all.take(i as int));
            }
            let rel = rest.remove(0);
            assert(rest@ =~= all.skip(i + 1));
            let id = rel.id.clone();
            let ghost before_failed = failed@;
            let ghost before_added = added@;
            let ghost rb = self.relationships@;
            match self.add_relationship(rel) {
                Ok(()) => {
                    added.push(id);
                    proof {
                        assert(strings_view(added@) =~= strings_view(before_added).push(id@));
                    }
                },
                Err(e) => {
                    let msg = e.message().clone();
                    failed.push((id, msg));
                    proof {
                        assert(refusal_message(items, rb, all[i as int]) == msg@);
                        assert(pairs_view(failed@) =~= pairs_view(before_failed).push((id@, msg@)));
                    }
                },
            }
            i = i + 1;
        }
        proof {
            lemma_take_full(all);
        }
        let total = added.len() + failed.len();
        BatchOperationResult { successful: added, failed, total_processed: total }
    }

    /// Removes each id in turn as [`SemanticMemory::remove_item`] does, reporting the
    /// ids that removed an item and those that matched none.
    pub fn batch_remove_items(&mut self, item_ids: Vec<String>) -> (r: BatchRemovalResult)
        ensures
            (final(self).items@, final(self).relationships@) == after_item_removals(
                (old(self).items@, old(self).relationships@),
                strings_view(item_ids@),
            ),
            strings_view(r.removed@) == removed_item_ids((old(self).items@, old(self).relationships@), strings_view(item_ids@)),
            strings_view(r.not_found@) == missing_item_ids((old(self).items@, old(self).relationships@), strings_view(item_ids@)),
            r.total_processed == item_ids@.len(),
            final(self).base == old(self).base,
            old(self).well_formed() ==> final(self).well_formed(),
    {
        let ghost m0 = (self.items@, self.relationships@);
        let ghost all = strings_view(item_ids@);
        let mut removed: Vec<String> = Vec::new();
        let mut not_found: Vec<String> = Vec::new();
        let mut i: usize = 0;
        proof {
            assert(all.take(0) =~= Seq::<Seq<char>>::empty());
        }
        while i < item_ids.len()
            invariant
                all == strings_view(item_ids@),
                i <= item_ids@.len(),
                (self.items@, self.relationships@) == after_item_removals(m0, all.take(i as int)),
                strings_view(removed@) == removed_item_ids(m0, all.take(i as int)),
                strings_view(not_found@) == missing_item_ids(m0, all.take(i as int)),
                removed@.len() + not_found@.len() == i,
                self.base == old(self).base,
                old(self).well_formed() ==> self.well_formed(),
            decreases item_ids@.len() - i,
        {
            let ghost t = all.take(i + 1);
            proof {
                assert(t.drop_last() =~= all.take(i as int));
                assert(t.last() == all[i as int]);
                assert(all[i as int] == item_ids@[i as int]@);
            }
            let ghost before = (self.items@, self.relationships@);
            let ghost rb = removed@;
            let ghost nb = not_found@;
            match self.remove_item(item_ids[i].as_str()) {
                Some(item) => {
                    proof {
                        let k = choose|k: int| #[trigger] first_at(crate::memory::item_ids(before.0), all[i as int], k) && item == before.0[k]
                            && self.items@ == before.0.remove(k) && self.relationships@ == before.1.filter(not_involving(all[i as int]));
                        lemma_first_pos(crate::memory::item_ids(before.0), all[i as int], k);
                        assert(crate::memory::item_ids(before.0)[k] == item.id@);
                    }
                    removed.push(item.id);
                    proof {
                        assert(strings_view(removed@) =~= strings_view(rb).push(all[i as int]));
                    }
                },
                None => {
                    not_found.push(item_ids[i].clone());
                    proof {
                        assert(strings_view(not_found@) =~= strings_view(nb).push(all[i as int]));
                    }
                },
            }
            i = i + 1;
        }
        proof {
            lemma_take_full(all);
        }
        let total = removed.len() + not_found.len();
        BatchRemovalResult { removed, not_found, total_processed: total }
    }

    /// Removes each id in turn as [`SemanticMemory::remove_relationship`] does,
    /// reporting the ids that removed a relationship and those that matched none.
    pub fn batch_remove_relationships(&mut self, relationship_ids: Vec<String>) -> (r: BatchRemovalResult)
        ensures
            final(self).relationships@ == after_rel_removals(old(self).relationships@, strings_view(relationship_ids@)),
            strings_view(r.removed@) == removed_rel_ids(old(self).relationships@, strings_view(relationship_ids@)),
            strings_view(r.not_found@) == missing_rel_ids(old(self).relationships@, strings_view(relationship_ids@)),
            r.total_processed == relationship_ids@.len(),
            final(self).items@ == old(self).items@,
            final(self).base == old(self).base,
            old(self).well_formed() ==> final(self).well_formed(),
    {
        let ghost r0 = self.relationships@;
        let ghost all = strings_view(relationship_ids@);
        let mut removed: Vec<String> = Vec::new();
        let mut not_found: Vec<String> = Vec::new();
        let mut i: usize = 0;
        proof {
            assert(all.take(0) =~= Seq::<Seq<char>>::empty());
        }
        while i < relationship_ids.len()
            invariant
                all == strings_view(relationship_ids@),
                i <= relationship_ids@.len(),
                self.relationships@ == after_rel_removals(r0, all.take(i as int)),
                strings_view(removed@) == removed_rel_ids(r0, all.take(i as int)),
                strings_view(not_found@) == missing_rel_ids(r0, all.take(i as int)),
                removed@.len() + not_found@.len() == i,
                self.items@ == old(self).items@,
                self.base == old(self).base,
                old(self).well_formed() ==> self.well_formed(),
            decreases relationship_ids@.len() - i,
        {
            let ghost t = all.take(i + 1);
            proof {
                assert(t.drop_last() =~= all.take(i as int));
                assert(t.last() == all[i as int]);
                assert(all[i as int] == relationship_ids@[i as int]@);
            }
            let ghost before = self.relationships@;
            let ghost rb = removed@;
            let ghost nb = not_found@;
            match self.remove_relationship(relationship_ids[i].as_str()) {
                Some(rel) => {
                    proof {
                        let k = choose|k: int| #[trigger] first_at(rel_ids(before), all[i as int], k) && rel == before[k]
                            && self.relationships@ == before.remove(k);
                        lemma_first_pos(rel_ids(before), all[i as int], k);
                        assert(rel_ids(before)[k] == rel.id@);
                    }
                    removed.push(rel.id);
                    proof {
                        assert(strings_view(removed@) =~= strings_view(rb).push(all[i as int]));
                    }
                },
                None => {
                    not_found.push(relationship_ids[i].clone());
                    proof {
                        assert(strings_view(not_found@) =~= strings_view(nb).push(all[i as int]));
                    }
                },
            }
            i = i + 1;
        }
        proof {
            lemma_take_full(all);
        }
        let total = removed.len() + not_found.len();
        BatchRemovalResult { removed, not_found, total_processed: total }
    }

    /// Adds the items and then the relationships of `other`, as the batch additions
    /// do, and counts what was added and what was skipped (always `Ok`).
    pub fn merge(&mut self, other: SemanticMemory) -> (r: Result<MergeResult, MemoryError>)
        ensures
            r is Ok,
            final(self).items@ == items_after(old(self).items@, other.items@),
            final(self).relationships@ == rels_after(final(self).items@, old(self).relationships@, other.relationships@),
            r->Ok_0.items_added == added_item_ids(old(self).items@, other.items@).len(),
            r->Ok_0.items_skipped == skipped_item_ids(old(self).items@, other.items@).len(),
            r->Ok_0.relationships_added == added_rel_ids(final(self).items@, old(self).relationships@, other.relationships@).len(),
            r->Ok_0.relationships_skipped == refused_rels(final(self).items@, old(self).relationships@, other.relationships@).len(),
            final(self).base == old(self).base,
            old(self).well_formed() ==> final(self).well_formed(),
    {
        let SemanticMemory { base: _, items, relationships } = other;
        let ir = self.add_each_item(items);
        let rr = self.add_each_relationship(relationships);
        proof {
            assert(strings_view(ir.successful@).len() == ir.successful@.len());
            assert(strings_view(rr.successful@).len() == rr.successful@.len());
            assert(pairs_view(rr.failed@).len() == rr.failed@.len());
        }
        Ok(MergeResult {
            items_added: ir.successful.len(),
            items_skipped: ir.failed.len(),
            relationships_added: rr.successful.len(),
            relationships_skipped: rr.failed.len(),
        })
    }

    /// Sets, for each update in turn, its entries on the metadata of the first item
    /// with its id (later keys win; the update time is left as it is); an id with no
    /// item is reported as "Item not found" (always `Ok`).
    #[verifier::rlimit(40)]
    pub fn batch_update_item_metadata(&mut self, updates: Vec<(String, Metadata)>) -> (r: Result<BatchOperationResult, MemoryError>)
        ensures
            r is Ok,
            final(self).items@.len() == old(self).items@.len(),
            forall|j: int|
                0 <= j < old(self).items@.len() ==> (#[trigger] final(self).items@[j]).same_but_metadata(old(self).items@[j])
                    && final(self).items@[j].updated_at == old(self).items@[j].updated_at && final(self).items@[j].meta() == (
                if first_at(old(self).ids(), old(self).items@[j].id@, j) {
                    meta_after_updates(old(self).items@[j].meta(), updates@, old(self).items@[j].id@)
                } else {
                    old(self).items@[j].meta()
                }),
            strings_view(r->Ok_0.successful@) == update_ids(updates@).filter(present_in(old(self).ids())),
            pairs_view(r->Ok_0.failed@) == with_message(update_ids(updates@).filter(absent_from(old(self).ids())), "Item not found"@),
            r->Ok_0.total_processed == updates@.len(),
            final(self).relationships@ == old(self).relationships@,
            final(self).base == old(self).base,
            old(self).well_formed() ==> final(self).well_formed(),
    {
        let ghost items0 = self.items@;
        let ghost ids0 = item_ids(items0);
        let mut updated: Vec<String> = Vec::new();
        let mut failed: Vec<(String, String)> = Vec::new();
        let mut i: usize = 0;
        proof {
            assert(update_ids(updates@.take(0)) =~= Seq::<Seq<char>>::empty());
            assert(Seq::<Seq<char>>::empty().filter(present_in(ids0)) =~= Seq::<Seq<char>>::empty());
            assert(Seq::<Seq<char>>::empty().filter(absent_from(ids0)) =~= Seq::<Seq<char>>::empty());
        }
        while i < updates.len()
            invariant
                i <= updates@.len(),
                items0 == old(self).items@,
                ids0 == item_ids(items0),
                self.items@.len() == items0.len(),
                item_ids(self.items@) == ids0,
                forall|j: int|
                    0 <= j < items0.len() ==> (#[trigger] self.items@[j]).same_but_metadata(items0[j]) && self.items@[j].updated_at
                        == items0[j].updated_at && self.items@[j].meta() == (if first_at(ids0, items0[j].id@, j) {
                        meta_after_updates(items0[j].meta(), updates@.take(i as int), items0[j].id@)
                    } else {
                        items0[j].meta()
                    }),
                strings_view(updated@) == update_ids(updates@.take(i as int)).filter(present_in(ids0)),
                pairs_view(failed@) == with_message(update_ids(updates@.take(i as int)).filter(absent_from(ids0)), "Item not found"@),
                updated@.len() + failed@.len() == i,
                self.relationships@ == old(self).relationships@,
                self.base == old(self).base,
                old(self).well_formed() ==> self.well_formed(),
            decreases updates@.len() - i,
        {
            proof {
                lemma_update_ids_step(updates@, i as int, present_in(ids0));
                lemma_update_ids_step(updates@, i as int, absent_from(ids0));
            }
            let ghost u = updates@[i as int];
            let ghost t = updates@.take(i + 1);
            proof {
                assert(t.drop_last() =~= updates@.take(i as int));
                assert(t.last() == u);
            }
            match find_item(&self.items, updates[i].0.as_str()) {
                Some(pos) => {
                    let ghost before = self.items@;
                    let mut it = self.items.remove(pos);
                    let ghost it0 = it;
                    let md = &updates[i].1;
                    let mut q: usize = 0;
                    while q < md.len()
                        invariant
                            q <= md@.len(),
                            it.same_but_metadata(it0),
                            it.updated_at == it0.updated_at,
                            it.meta() == it0.meta().union_prefer_right(meta_view(md@.take(q as int))),
                        decreases md@.len() - q,
                    {
                        meta_insert(&mut it.metadata, md[q].0.clone(), md[q].1.copy());
                        proof {
                            let tq = md@.take(q + 1);
                            assert(tq.drop_last() =~= md@.take(q as int));
                            assert(it.meta() =~= it0.meta().union_prefer_right(meta_view(tq)));
                        }
                        q = q + 1;
                    }
                    proof {
                        lemma_take_full(md@);
                    }
                    self.items.insert(pos, it);
                    updated.push(updates[i].0.clone());
                    proof {
                        assert(self.items@ =~= before.update(pos as int, it));
                        assert(ids0.contains(u.0@)) by {
                            assert(ids0[pos as int] == u.0@);
                        }
                        assert(item_ids(self.items@) =~= ids0) by {
                            assert forall|j: int| 0 <= j < ids0.len() implies item_ids(self.items@)[j] == ids0[j] by {
                                assert(self.items@[j].id == before[j].id);
                            }
                        }
                        assert forall|j: int| 0 <= j < items0.len() implies (#[trigger] self.items@[j]).same_but_metadata(items0[j])
                            && self.items@[j].updated_at == items0[j].updated_at && self.items@[j].meta() == (if first_at(
                            ids0,
                            items0[j].id@,
                            j,
                        ) {
                            meta_after_updates(items0[j].meta(), t, items0[j].id@)
                        } else {
                            items0[j].meta()
                        }) by {
                            assert(ids0[j] == items0[j].id@);
                            if j == pos {
                                assert(first_at(ids0, items0[j].id@, j));
                            } else {
                                assert(self.items@[j] == before[j]);
                                if first_at(ids0, items0[j].id@, j) && items0[j].id@ == u.0@ {
                                    assert(j > pos || j < pos);
                                    if j > pos {
                                        assert(ids0[pos as int] == items0[j].id@);
                                    } else {
                                        assert(ids0[j] == u.0@);
                                    }
                                }
                            }
                        }
                        assert(strings_view(updated@) =~= strings_view(updated@.drop_last()).push(u.0@));
                    }
                },
                None => {
                    let ghost fb = failed@;
                    failed.push((updates[i].0.clone(), owned("Item not found")));
                    proof {
                        assert(!ids0.contains(u.0@));
                        assert(pairs_view(failed@) =~= pairs_view(fb).push((u.0@, "Item not found"@)));
                        let f0 = update_ids(updates@.take(i as int)).filter(absent_from(ids0));
                        assert(with_message(f0.push(u.0@), "Item not found"@) =~= with_message(f0, "Item not found"@).push(
                            (u.0@, "Item not found"@),
                        ));
                        assert forall|j: int| 0 <= j < items0.len() implies (#[trigger] self.items@[j]).same_but_metadata(items0[j])
                            && self.items@[j].updated_at == items0[j].updated_at && self.items@[j].meta() == (if first_at(
                            ids0,
                            items0[j].id@,
                            j,
                        ) {
                            meta_after_updates(items0[j].meta(), t, items0[j].id@)
                        } else {
                            items0[j].meta()
                        }) by {
                            assert(ids0[j] == items0[j].id@);
                        }
                    }
                },
            }
            i = i + 1;
        }
        proof {
            lemma_take_full(updates@);
        }
        let total = updated.len() + failed.len();
        Ok(BatchOperationResult { successful: updated, failed, total_processed: total })
    }

    /// Sets, for each update in turn, its entries on the metadata of the first
    /// relationship with its id (later keys win); an id with no relationship is
    /// reported as "Relationship not found" (always `Ok`).
    #[verifier::rlimit(40)]
    pub fn batch_update_relationship_metadata(&mut self, updates: Vec<(String, Metadata)>) -> (r: Result<BatchOperationResult, MemoryError>)
        ensures
            r is Ok,
            final(self).relationships@.len() == old(self).relationships@.len(),
            forall|j: int|
                0 <= j < old(self).relationships@.len() ==> same_but_relationship_metadata(#[trigger] final(self).relationships@[j], old(self).relationships@[j])
                    && meta_view(final(self).relationships@[j].metadata@) == (
                if first_at(old(self).relationship_ids(), old(self).relationships@[j].id@, j) {
                    meta_after_updates(meta_view(old(self).relationships@[j].metadata@), updates@, old(self).relationships@[j].id@)
                } else {
                    meta_view(old(self).relationships@[j].metadata@)
                }),
            strings_view(r->Ok_0.successful@) == update_ids(updates@).filter(present_in(old(self).relationship_ids())),
            pairs_view(r->Ok_0.failed@) == with_message(update_ids(updates@).filter(absent_from(old(self).relationship_ids())), "Relationship not found"@),
            r->Ok_0.total_processed == updates@.len(),
            final(self).items@ == old(self).items@,
            final(self).base == old(self).base,
            old(self).well_formed() ==> final(self).well_formed(),
    {
        let ghost items0 = self.relationships@;
        let ghost ids0 = rel_ids(items0);
        let mut updated: Vec<String> = Vec::new();
        let mut failed: Vec<(String, String)> = Vec::new();
        let mut i: usize = 0;
        proof {
            assert(update_ids(updates@.take(0)) =~= Seq::<Seq<char>>::empty());
            assert(Seq::<Seq<char>>::empty().filter(present_in(ids0)) =~= Seq::<Seq<char>>::empty());
            assert(Seq::<Seq<char>>::empty().filter(absent_from(ids0)) =~= Seq::<Seq<char>>::empty());
        }
        while i < updates.len()
            invariant
                i <= updates@.len(),
                items0 == old(self).relationships@,
                ids0 == rel_ids(items0),
                self.relationships@.len() == items0.len(),
                rel_ids(self.relationships@) == ids0,
                forall|j: int|
                    0 <= j < items0.len() ==> same_but_relationship_metadata(#[trigger] self.relationships@[j], items0[j]) && meta_view(
                        self.relationships@[j].metadata@,
                    ) == (if first_at(ids0, items0[j].id@, j) {
                        meta_after_updates(meta_view(items0[j].metadata@), updates@.take(i as int), items0[j].id@)
                    } else {
                        meta_view(items0[j].metadata@)
                    }),
                strings_view(updated@) == update_ids(updates@.take(i as int)).filter(present_in(ids0)),
                pairs_view(failed@) == with_message(update_ids(updates@.take(i as int)).filter(absent_from(ids0)), "Relationship not found"@),
                updated@.len() + failed@.len() == i,
                self.items@ == old(self).items@,
                self.base == old(self).base,
                old(self).well_formed() ==> self.well_formed(),
            decreases updates@.len() - i,
        {
            proof {
                lemma_update_ids_step(updates@, i as int, present_in(ids0));
                lemma_update_ids_step(updates@, i as int, absent_from(ids0));
            }
            let ghost u = updates@[i as int];
            let ghost t = updates@.take(i + 1);
            proof {
                assert(t.drop_last() =~= updates@.take(i as int));
                assert(t.last() == u);
            }
            match find_relationship(&self.relationships, updates[i].0.as_str()) {
                Some(pos) => {
                    let ghost before = self.relationships@;
                    let mut it = self.relationships.remove(pos);
                    let ghost it0 = it;
                    let md = &updates[i].1;
                    let mut q: usize = 0;
                    while q < md.len()
                        invariant
                            q <= md@.len(),
                            same_but_relationship_metadata(it, it0),
                            meta_view(it.metadata@) == meta_view(it0.metadata@).union_prefer_right(meta_view(md@.take(q as int))),
                        decreases md@.len() - q,
                    {
                        meta_insert(&mut it.metadata, md[q].0.clone(), md[q].1.copy());
                        proof {
                            let tq = md@.take(q + 1);
                            assert(tq.drop_last() =~= md@.take(q as int));
                            assert(meta_view(it.metadata@) =~= meta_view(it0.metadata@).union_prefer_right(meta_view(tq)));
                        }
                        q = q + 1;
                    }
                    proof {
                        lemma_take_full(md@);
                    }
                    self.relationships.insert(pos, it);
                    updated.push(updates[i].0.clone());
                    proof {
                        assert(self.relationships@ =~= before.update(pos as int, it));
                        assert(ids0.contains(u.0@)) by {
                            assert(ids0[pos as int] == u.0@);
                        }
                        assert(rel_ids(self.relationships@) =~= ids0) by {
                            assert forall|j: int| 0 <= j < ids0.len() implies rel_ids(self.relationships@)[j] == ids0[j] by {
                                assert(self.relationships@[j].id == before[j].id);
                            }
                        }
                        assert forall|j: int| 0 <= j < items0.len() implies same_but_relationship_metadata(#[trigger] self.relationships@[j], items0[j])
                            && meta_view(self.relationships@[j].metadata@) == (if first_at(ids0, items0[j].id@, j) {
                            meta_after_updates(meta_view(items0[j].metadata@), t, items0[j].id@)
                        } else {
                            meta_view(items0[j].metadata@)
                        }) by {
                            assert(ids0[j] == items0[j].id@);
                            if j == pos {
                                assert(first_at(ids0, items0[j].id@, j));
                            } else {
                                assert(self.relationships@[j] == before[j]);
                                if first_at(ids0, items0[j].id@, j) && items0[j].id@ == u.0@ {
                                    assert(j > pos || j < pos);
                                    if j > pos {
                                        assert(ids0[pos as int] == items0[j].id@);
                                    } else {
                                        assert(ids0[j] == u.0@);
                                    }
                                }
                            }
                        }
                        assert(strings_view(updated@) =~= strings_view(updated@.drop_last()).push(u.0@));
                    }
                },
                None => {
                    let ghost fb = failed@;
                    failed.push((updates[i].0.clone(), owned("Relationship not found")));
                    proof {
                        assert(!ids0.contains(u.0@));
                        assert(pairs_view(failed@) =~= pairs_view(fb).push((u.0@, "Relationship not found"@)));
                        let f0 = update_ids(updates@.take(i as int)).filter(absent_from(ids0));
                        assert(with_message(f0.push(u.0@), "Relationship not found"@) =~= with_message(f0, "Relationship not found"@).push(
                            (u.0@, "Relationship not found"@),
                        ));
                        assert forall|j: int| 0 <= j < items0.len() implies same_but_relationship_metadata(#[trigger] self.relationships@[j], items0[j])
                            && meta_view(self.relationships@[j].metadata@) == (if first_at(ids0, items0[j].id@, j) {
                            meta_after_updates(meta_view(items0[j].metadata@), t, items0[j].id@)
                        } else {
                            meta_view(items0[j].metadata@)
                        }) by {
                            assert(ids0[j] == items0[j].id@);
                        }
                    }
                },
            }
            i = i + 1;
        }
        proof {
            lemma_take_full(updates@);
        }
        let total = updated.len() + failed.len();
        Ok(BatchOperationResult { successful: updated, failed, total_processed: total })
    }

    /// A copy of the memory with the items that `item_filter` accepts and the
    /// relationships whose both ends are accepted items, in order.
    pub fn clone_filtered<F: Fn(&SemanticItem) -> bool>(&self, item_filter: F) -> (r: SemanticMemory)
        requires
            forall|j: int| 0 <= j < self.items@.len() ==> item_filter.requires((#[trigger] &self.items@[j],)),
        ensures
            r.base.id@ == self.base.id@ && r.base.name@ == self.base.name@ && r.base.description@ == self.base.description@,
            exists|keep: Seq<bool>|
                #[trigger] filtered_copy(*self, keep, r) && forall|j: int|
                    0 <= j < keep.len() ==> item_filter.ensures((&self.items@[j],), #[trigger] keep[j]),
    {
        let ghost items = self.items@;
        let ghost mut keep: Seq<bool> = Seq::empty();
        let mut kept: Vec<SemanticItem> = Vec::new();
        let mut i: usize = 0;
        while i < self.items.len()
            invariant
                items == self.items@,
                forall|j: int| 0 <= j < items.len() ==> item_filter.requires((#[trigger] &items[j],)),
                i <= items.len(),
                keep.len() == i,
                forall|j: int| 0 <= j < i ==> item_filter.ensures((&items[j],), #[trigger] keep[j]),
                item_copies(kept@, picked(items.take(i as int), keep)),
            decreases items.len() - i,
        {
            let b = item_filter(&self.items[i]);
            let ghost kb = keep;
            let ghost pb = picked(items.take(i as int), kb);
            proof {
                keep = keep.push(b);
                assert(items.take(i + 1).drop_last() =~= items.take(i as int));
                assert(keep.drop_last() =~= kb);
            }
            if b {
                let c = self.items[i].copy();
                let ghost before = kept@;
                kept.push(c);
                proof {
                    assert(picked(items.take(i + 1), keep) == pb.push(items[i as int]));
                    assert forall|k: int| 0 <= k < kept@.len() implies item_copy_of(#[trigger] kept@[k], pb.push(items[i as int])[k]) by {
                        if k < before.len() {
                            assert(kept@[k] == before[k]);
                        }
                    }
                }
            } else {
                proof {
                    assert(picked(items.take(i + 1), keep) == pb);
                }
            }
            i = i + 1;
        }
        proof {
            crate::seqs::lemma_take_full(items);
        }
        let ghost chosen = picked(items, keep);
        let mut kept_ids: Vec<String> = Vec::new();
        let mut q: usize = 0;
        while q < kept.len()
            invariant
                item_copies(kept@, chosen),
                q <= kept@.len(),
                strings_view(kept_ids@) == item_ids(chosen).take(q as int),
            decreases kept@.len() - q,
        {
            let ghost kb = kept_ids@;
            kept_ids.push(kept[q].id.clone());
            proof {
                assert(item_copy_of(kept@[q as int], chosen[q as int]));
                assert(kept@[q as int].id == chosen[q as int].id);
                assert(strings_view(kept_ids@) =~= strings_view(kb).push(kept@[q as int].id@));
                assert(item_ids(chosen)[q as int] == chosen[q as int].id@);
                assert(item_ids(chosen).take(q + 1) =~= item_ids(chosen).take(q as int).push(item_ids(chosen)[q as int]));
                assert(strings_view(kept_ids@) =~= item_ids(chosen).take(q + 1));
            }
            q = q + 1;
        }
        proof {
            assert(item_ids(chosen).take(kept@.len() as int) =~= item_ids(chosen));
        }
        let ghost rels = self.relationships@;
        let ghost p = ends_among(item_ids(chosen));
        let mut kept_rels: Vec<SemanticRelationship> = Vec::new();
        let mut m: usize = 0;
        while m < self.relationships.len()
            invariant
                rels == self.relationships@,
                p == ends_among(item_ids(chosen)),
                strings_view(kept_ids@) == item_ids(chosen),
                m <= rels.len(),
                rel_copies(kept_rels@, rels.take(m as int).filter(p)),
            decreases rels.len() - m,
        {
            proof {
                crate::seqs::lemma_filter_step(rels, m as int, p);
            }
            let s_in = crate::item::contains_string(&kept_ids, self.relationships[m].source_id.as_str());
            let t_in = crate::item::contains_string(&kept_ids, self.relationships[m].target_id.as_str());
            if s_in && t_in {
                let c = self.relationships[m].copy();
                let ghost before = kept_rels@;
                let ghost fb = rels.take(m as int).filter(p);
                kept_rels.push(c);
                proof {
                    assert forall|k: int| 0 <= k < kept_rels@.len() implies rel_copy_of(#[trigger] kept_rels@[k], fb.push(rels[m as int])[k]) by {
                        if k < before.len() {
                            assert(kept_rels@[k] == before[k]);
                        }
                    }
                }
            }
            m = m + 1;
        }
        proof {
            crate::seqs::lemma_take_full(rels);
        }
        let r = SemanticMemory {
            base: BaseMemory {
                id: self.base.id.clone(),
                name: self.base.name.clone(),
                description: self.base.description.clone(),
            },
            items: kept,
            relationships: kept_rels,
        };
        proof {
            assert(filtered_copy(*self, keep, r));
        }
        r
    }
}

} // verus!
