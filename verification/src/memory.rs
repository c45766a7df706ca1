//! The semantic memory: a collection of items and the relationships between them.

use vstd::prelude::*;
use crate::clock::now_millis;
use crate::error::MemoryError;
use crate::item::{first_at, SemanticItem};
use crate::relationship::{involves, other_end, SemanticRelationship};
use crate::seqs::{lemma_filter_step, lemma_take_full};
use crate::text::{chars_eq, chars_of, join3, owned};

verus! {

/// Identity of a memory.
#[derive(Debug)]
pub struct BaseMemory {
    /// Unique identifier of the memory.
    pub id: String,
    /// Display name.
    pub name: String,
    /// Free-form description.
    pub description: String,
}

/// A collection of semantic items and the relationships between them.
#[derive(Debug)]
pub struct SemanticMemory {
    /// Identity of the memory.
    pub base: BaseMemory,
    /// The items, in insertion order.
    pub items: Vec<SemanticItem>,
    /// The relationships, in insertion order.
    pub relationships: Vec<SemanticRelationship>,
}

/// The ids of the items, in order.
pub open spec fn item_ids(s: Seq<SemanticItem>) -> Seq<Seq<char>> {
    s.map_values(|i: SemanticItem| i.id@)
}

/// The ids of the relationships, in order.
pub open spec fn rel_ids(s: Seq<SemanticRelationship>) -> Seq<Seq<char>> {
    s.map_values(|r: SemanticRelationship| r.id@)
}

/// Keeps the relationships that do not touch `id`.
pub open spec fn not_involving(id: Seq<char>) -> spec_fn(SemanticRelationship) -> bool {
    |r: SemanticRelationship| !involves(r, id)
}

/// Keeps the relationships that touch `id`.
pub open spec fn involving(id: Seq<char>) -> spec_fn(SemanticRelationship) -> bool {
    |r: SemanticRelationship| involves(r, id)
}

/// Keeps the relationships starting at `id`.
pub open spec fn starting_at(id: Seq<char>) -> spec_fn(SemanticRelationship) -> bool {
    |r: SemanticRelationship| r.source_id@ == id
}

/// Keeps the relationships ending at `id`.
pub open spec fn ending_at(id: Seq<char>) -> spec_fn(SemanticRelationship) -> bool {
    |r: SemanticRelationship| r.target_id@ == id
}

/// The memory is well formed: item ids are unique, relationship ids are unique and
/// every relationship joins two items of the memory.
pub open spec fn well_formed_parts(items: Seq<SemanticItem>, rels: Seq<SemanticRelationship>) -> bool {
    &&& forall|i: int, j: int| 0 <= i < j < items.len() ==> items[i].id@ != items[j].id@
    &&& forall|i: int, j: int| 0 <= i < j < rels.len() ==> rels[i].id@ != rels[j].id@
    &&& forall|k: int| 0 <= k < rels.len() ==> item_ids(items).contains((#[trigger] rels[k]).source_id@)
        && item_ids(items).contains(rels[k].target_id@)
}

/// The first position holding an item with id `id`.
pub fn find_item(items: &Vec<SemanticItem>, id: &str) -> (r: Option<usize>)
    ensures
        match r {
            Some(i) => first_at(item_ids(items@), id@, i as int),
            None => !item_ids(items@).contains(id@),
        },
{
    let k = chars_of(id);
    let mut i: usize = 0;
    while i < items.len()
        invariant
            i <= items@.len(),
            k@ == id@,
            forall|j: int| 0 <= j < i ==> (#[trigger] items@[j]).id@ != id@,
        decreases items.len() - i,
    {
        let c = chars_of(items[i].id.as_str());
        if chars_eq(&c, &k) {
            return Some(i);
        }
        i = i + 1;
    }
    assert forall|j: int| 0 <= j < item_ids(items@).len() implies item_ids(items@)[j] != id@ by {
        assert(item_ids(items@)[j] == items@[j].id@);
    }
    None
}

/// The first position holding a relationship with id `id`.
pub fn find_relationship(rels: &Vec<SemanticRelationship>, id: &str) -> (r: Option<usize>)
    ensures
        match r {
            Some(i) => first_at(rel_ids(rels@), id@, i as int),
            None => !rel_ids(rels@).contains(id@),
        },
{
    let k = chars_of(id);
    let mut i: usize = 0;
    while i < rels.len()
        invariant
            i <= rels@.len(),
            k@ == id@,
            forall|j: int| 0 <= j < i ==> (#[trigger] rels@[j]).id@ != id@,
        decreases rels.len() - i,
    {
        let c = chars_of(rels[i].id.as_str());
        if chars_eq(&c, &k) {
            return Some(i);
        }
        i = i + 1;
    }
    assert forall|j: int| 0 <= j < rel_ids(rels@).len() implies rel_ids(rels@)[j] != id@ by {
        assert(rel_ids(rels@)[j] == rels@[j].id@);
    }
    None
}

/// Moves out the relationships that pass `keep` (decided by touching `id` or not),
/// in order.
fn retain_relationships(rels: Vec<SemanticRelationship>, id: &str) -> (r: Vec<SemanticRelationship>)
    ensures
        r@ == rels@.filter(not_involving(id@)),
{
    let ghost orig = rels@;
    let mut rest = rels;
    let mut kept: Vec<SemanticRelationship> = Vec::new();
    let n = rest.len();
    let mut i: usize = 0;
    while i < n
        invariant
            n == orig.len(),
            i <= n,
            rest@ == orig.skip(i as int),
            kept@ == orig.take(i as int).filter(not_involving(id@)),
        decreases n - i,
    {
        proof {
            lemma_filter_step(orig, i as int, not_involving(id@));
        }
        assert(rest@.len() > 0);
        let r = rest.remove(0);
        assert(rest@ =~= orig.skip(i + 1));
        if !r.involves_item(id) {
            kept.push(r);
        }
        i = i + 1;
    }
    proof {
        lemma_take_full(orig);
    }
    kept
}

impl SemanticMemory {
    /// The ids of the items.
    pub open spec fn ids(self) -> Seq<Seq<char>> {
        item_ids(self.items@)
    }

    /// The ids of the relationships.
    pub open spec fn relationship_ids(self) -> Seq<Seq<char>> {
        rel_ids(self.relationships@)
    }

    /// Unique ids, and every relationship joins two items of the memory.
    pub open spec fn well_formed(self) -> bool {
        well_formed_parts(self.items@, self.relationships@)
    }

    /// An empty memory with the given identity.
    pub fn new(id: &str, name: &str, description: &str) -> (r: SemanticMemory)
        ensures
            r.base.id@ == id@,
            r.base.name@ == name@,
            r.base.description@ == description@,
            r.items@.len() == 0,
            r.relationships@.len() == 0,
            r.well_formed(),
    {
        SemanticMemory {
            base: BaseMemory { id: owned(id), name: owned(name), description: owned(description) },
            items: Vec::new(),
            relationships: Vec::new(),
        }
    }

    /// An empty memory; the capacities are hints for storage only.
    pub fn with_capacity(
        id: &str,
        name: &str,
        description: &str,
        items_capacity: usize,
        relationships_capacity: usize,
    ) -> (r: SemanticMemory)
        ensures
            r.base.id@ == id@,
            r.base.name@ == name@,
            r.base.description@ == description@,
            r.items@.len() == 0,
            r.relationships@.len() == 0,
            r.well_formed(),
    {
        SemanticMemory {
            base: BaseMemory { id: owned(id), name: owned(name), description: owned(description) },
            items: Vec::with_capacity(items_capacity),
            relationships: Vec::with_capacity(relationships_capacity),
        }
    }

    /// Adds an item; an item with the same id already present is a validation error.
    pub fn add_item(&mut self, item: SemanticItem) -> (r: Result<(), MemoryError>)
        ensures
            old(self).ids().contains(item.id@) ==> (r matches Err(MemoryError::ValidationError(m))
                && m@ == "Item with ID '"@ + item.id@ + "' already exists"@ && final(self).items@
                == old(self).items@),
            !old(self).ids().contains(item.id@) ==> (r is Ok && final(self).items@ == old(self).items@.push(item)),
            final(self).relationships@ == old(self).relationships@,
            final(self).base == old(self).base,
            old(self).well_formed() ==> final(self).well_formed(),
    {
        match find_item(&self.items, item.id.as_str()) {
            Some(_) => {
                let msg = join3("Item with ID '", item.id.as_str(), "' already exists");
                Err(MemoryError::ValidationError(msg))
            },
            None => {
                let ghost before = self.items@;
                self.items.push(item);
                proof {
                    assert(item_ids(self.items@) =~= item_ids(before).push(item.id@));
                    if well_formed_parts(before, self.relationships@) {
                        assert forall|i: int, j: int| 0 <= i < j < self.items@.len() implies self.items@[i].id@
                            != self.items@[j].id@ by {
                            if j == before.len() {
                                assert(item_ids(before)[i] == before[i].id@);
                            }
                        }
                        assert forall|k: int| 0 <= k < self.relationships@.len() implies item_ids(self.items@).contains(
                            (#[trigger] self.relationships@[k]).source_id@,
                        ) && item_ids(self.items@).contains(self.relationships@[k].target_id@) by {
                            let a = choose|a: int| 0 <= a < item_ids(before).len() && item_ids(before)[a]
                                == self.relationships@[k].source_id@;
                            assert(item_ids(self.items@)[a] == item_ids(before)[a]);
                            let b = choose|b: int| 0 <= b < item_ids(before).len() && item_ids(before)[b]
                                == self.relationships@[k].target_id@;
                            assert(item_ids(self.items@)[b] == item_ids(before)[b]);
                        }
                    }
                }
                Ok(())
            },
        }
    }

    /// Removes the first item with id `item_id` together with every relationship that
    /// touches that id; gives back the removed item.
    pub fn remove_item(&mut self, item_id: &str) -> (r: Option<SemanticItem>)
        ensures
            match r {
                Some(x) => exists|i: int|
                    #[trigger] first_at(old(self).ids(), item_id@, i) && x == old(self).items@[i]
                        && final(self).items@ == old(self).items@.remove(i)
                        && final(self).relationships@ == old(self).relationships@.filter(not_involving(item_id@)),
                None => !old(self).ids().contains(item_id@) && final(self).items@ == old(self).items@
                    && final(self).relationships@ == old(self).relationships@,
            },
            final(self).base == old(self).base,
            old(self).well_formed() ==> final(self).well_formed(),
            forall|k: int| 0 <= k < final(self).relationships@.len() ==> !involves(#[trigger] final(self).relationships@[k], item_id@)
                || r is None,
    {
        match find_item(&self.items, item_id) {
            Some(pos) => {
                let mut rels: Vec<SemanticRelationship> = Vec::new();
                std::mem::swap(&mut rels, &mut self.relationships);
                self.relationships = retain_relationships(rels, item_id);
                let removed = self.items.remove(pos);
                assert(first_at(old(self).ids(), item_id@, pos as int));
                proof {
                    crate::seqs::lemma_filter_members(old(self).relationships@, not_involving(item_id@));
                    let olds = old(self).items@;
                    if old(self).well_formed() {
                        assert forall|i: int, j: int| 0 <= i < j < self.items@.len() implies self.items@[i].id@
                            != self.items@[j].id@ by {
                            let a = if i < pos { i } else { i + 1 };
                            let b = if j < pos { j } else { j + 1 };
                            assert(self.items@[i] == olds[a]);
                            assert(self.items@[j] == olds[b]);
                        }
                        let rs = self.relationships@;
                        assert forall|i: int, j: int| 0 <= i < j < rs.len() implies rs[i].id@ != rs[j].id@ by {
                            crate::seqs::lemma_filter_subsequence(old(self).relationships@, not_involving(item_id@), i, j);
                        }
                        assert forall|k: int| 0 <= k < rs.len() implies item_ids(self.items@).contains(
                            (#[trigger] rs[k]).source_id@,
                        ) && item_ids(self.items@).contains(rs[k].target_id@) by {
                            assert(old(self).relationships@.contains(rs[k]));
                            let m = choose|m: int| 0 <= m < old(self).relationships@.len() && old(self).relationships@[m] == rs[k];
                            assert(item_ids(olds).contains(rs[k].source_id@));
                            let a = choose|a: int| 0 <= a < item_ids(olds).len() && item_ids(olds)[a] == rs[k].source_id@;
                            assert(a != pos);
                            let a2 = if a < pos { a } else { a - 1 };
                            assert(item_ids(self.items@)[a2] == rs[k].source_id@);
                            assert(item_ids(olds).contains(rs[k].target_id@));
                            let b = choose|b: int| 0 <= b < item_ids(olds).len() && item_ids(olds)[b] == rs[k].target_id@;
                            assert(b != pos);
                            let b2 = if b < pos { b } else { b - 1 };
                            assert(item_ids(self.items@)[b2] == rs[k].target_id@);
                        }
                    }
                }
                Some(removed)
            },
            None => None,
        }
    }

    /// The first item with id `item_id`.
    pub fn get_item(&self, item_id: &str) -> (r: Option<&SemanticItem>)
        ensures
            match r {
                Some(x) => exists|i: int| #[trigger] first_at(self.ids(), item_id@, i) && *x == self.items@[i],
                None => !self.ids().contains(item_id@),
            },
    {
        match find_item(&self.items, item_id) {
            Some(i) => {
                assert(first_at(self.ids(), item_id@, i as int));
                Some(&self.items[i])
            },
            None => None,
        }
    }

    /// Adds a relationship. Both ends must be items of the memory (the source is checked
    /// first) and its id must be new; otherwise it is a validation error.
    pub fn add_relationship(&mut self, relationship: SemanticRelationship) -> (r: Result<(), MemoryError>)
        ensures
            !old(self).ids().contains(relationship.source_id@) ==> (r matches Err(MemoryError::ValidationError(m))
                && m@ == "Source item '"@ + relationship.source_id@ + "' not found"@),
            old(self).ids().contains(relationship.source_id@) && !old(self).ids().contains(relationship.target_id@)
                ==> (r matches Err(MemoryError::ValidationError(m)) && m@ == "Target item '"@
                + relationship.target_id@ + "' not found"@),
            old(self).ids().contains(relationship.source_id@) && old(self).ids().contains(relationship.target_id@)
                && old(self).relationship_ids().contains(relationship.id@) ==> (r matches Err(
                MemoryError::ValidationError(m),
            ) && m@ == "Relationship with ID '"@ + relationship.id@ + "' already exists"@),
            r is Ok <==> (old(self).ids().contains(relationship.source_id@) && old(self).ids().contains(
                relationship.target_id@,
            ) && !old(self).relationship_ids().contains(relationship.id@)),
            r is Ok ==> final(self).relationships@ == old(self).relationships@.push(relationship),
            r is Err ==> final(self).relationships@ == old(self).relationships@,
            final(self).items@ == old(self).items@,
            final(self).base == old(self).base,
            old(self).well_formed() ==> final(self).well_formed(),
    {
        if find_item(&self.items, relationship.source_id.as_str()).is_none() {
            let msg = join3("Source item '", relationship.source_id.as_str(), "' not found");
            return Err(MemoryError::ValidationError(msg));
        }
        if find_item(&self.items, relationship.target_id.as_str()).is_none() {
            let msg = join3("Target item '", relationship.target_id.as_str(), "' not found");
            return Err(MemoryError::ValidationError(msg));
        }
        if find_relationship(&self.relationships, relationship.id.as_str()).is_some() {
            let msg = join3("Relationship with ID '", relationship.id.as_str(), "' already exists");
            return Err(MemoryError::ValidationError(msg));
        }
        let ghost before = self.relationships@;
        self.relationships.push(relationship);
        proof {
            assert(rel_ids(self.relationships@) =~= rel_ids(before).push(relationship.id@));
            if well_formed_parts(self.items@, before) {
                assert forall|i: int, j: int| 0 <= i < j < self.relationships@.len() implies self.relationships@[i].id@
                    != self.relationships@[j].id@ by {
                    if j == before.len() {
                        assert(rel_ids(before)[i] == before[i].id@);
                    }
                }
                assert forall|k: int| 0 <= k < self.relationships@.len() implies item_ids(self.items@).contains(
                    (#[trigger] self.relationships@[k]).source_id@,
                ) && item_ids(self.items@).contains(self.relationships@[k].target_id@) by {
                    if k < before.len() {
                        assert(self.relationships@[k] == before[k]);
                    }
                }
            }
        }
        Ok(())
    }

    /// Removes the first relationship with id `relationship_id` and gives it back.
    pub fn remove_relationship(&mut self, relationship_id: &str) -> (r: Option<SemanticRelationship>)
        ensures
            match r {
                Some(x) => exists|i: int|
                    #[trigger] first_at(old(self).relationship_ids(), relationship_id@, i) && x == old(
                        self,
                    ).relationships@[i] && final(self).relationships@ == old(self).relationships@.remove(i),
                None => !old(self).relationship_ids().contains(relationship_id@) && final(self).relationships@
                    == old(self).relationships@,
            },
            final(self).items@ == old(self).items@,
            final(self).base == old(self).base,
            old(self).well_formed() ==> final(self).well_formed(),
    {
        match find_relationship(&self.relationships, relationship_id) {
            Some(pos) => {
                let ghost before = self.relationships@;
                let removed = self.relationships.remove(pos);
                assert(first_at(old(self).relationship_ids(), relationship_id@, pos as int));
                proof {
                    if well_formed_parts(self.items@, before) {
                        assert forall|i: int, j: int| 0 <= i < j < self.relationships@.len() implies self.relationships@[i].id@
                            != self.relationships@[j].id@ by {
                            let a = if i < pos { i } else { i + 1 };
                            let b = if j < pos { j } else { j + 1 };
                            assert(self.relationships@[i] == before[a]);
                            assert(self.relationships@[j] == before[b]);
                        }
                        assert forall|k: int| 0 <= k < self.relationships@.len() implies item_ids(self.items@).contains(
                            (#[trigger] self.relationships@[k]).source_id@,
                        ) && item_ids(self.items@).contains(self.relationships@[k].target_id@) by {
                            let a = if k < pos { k } else { k + 1 };
                            assert(self.relationships@[k] == before[a]);
                        }
                    }
                }
                Some(removed)
            },
            None => None,
        }
    }

    /// The first relationship with id `relationship_id`.
    pub fn get_relationship(&self, relationship_id: &str) -> (r: Option<&SemanticRelationship>)
        ensures
            match r {
                Some(x) => exists|i: int|
                    #[trigger] first_at(self.relationship_ids(), relationship_id@, i) && *x == self.relationships@[i],
                None => !self.relationship_ids().contains(relationship_id@),
            },
    {
        match find_relationship(&self.relationships, relationship_id) {
            Some(i) => {
                assert(first_at(self.relationship_ids(), relationship_id@, i as int));
                Some(&self.relationships[i])
            },
            None => None,
        }
    }

    /// Removes every item and relationship.
    pub fn clear(&mut self)
        ensures
            final(self).items@.len() == 0,
            final(self).relationships@.len() == 0,
            final(self).base == old(self).base,
    {
        self.items.clear();
        self.relationships.clear();
    }

    /// Number of items plus number of relationships.
    pub fn size(&self) -> (r: usize)
        requires
            self.items@.len() + self.relationships@.len() <= usize::MAX,
        ensures
            r == self.items@.len() + self.relationships@.len(),
    {
        self.items.len() + self.relationships.len()
    }

    /// Whether there are neither items nor relationships.
    pub fn is_empty(&self) -> (r: bool)
        ensures
            r == (self.items@.len() == 0 && self.relationships@.len() == 0),
    {
        self.items.len() == 0 && self.relationships.len() == 0
    }

    /// Whether an item has id `item_id`.
    pub fn contains_item(&self, item_id: &str) -> (r: bool)
        ensures
            r == self.ids().contains(item_id@),
    {
        match find_item(&self.items, item_id) {
            Some(i) => {
                assert(self.ids()[i as int] == item_id@);
                true
            },
            None => false,
        }
    }

    /// Whether a relationship has id `relationship_id`.
    pub fn contains_relationship(&self, relationship_id: &str) -> (r: bool)
        ensures
            r == self.relationship_ids().contains(relationship_id@),
    {
        match find_relationship(&self.relationships, relationship_id) {
            Some(i) => {
                assert(self.relationship_ids()[i as int] == relationship_id@);
                true
            },
            None => false,
        }
    }

    /// The first item, if any.
    pub fn first_item(&self) -> (r: Option<&SemanticItem>)
        ensures
            self.items@.len() == 0 ==> r is None,
            self.items@.len() > 0 ==> r == Some(&self.items@[0]),
    {
        if self.items.len() == 0 {
            None
        } else {
            Some(&self.items[0])
        }
    }

    /// The last item, if any.
    pub fn last_item(&self) -> (r: Option<&SemanticItem>)
        ensures
            self.items@.len() == 0 ==> r is None,
            self.items@.len() > 0 ==> r == Some(&self.items@.last()),
    {
        if self.items.len() == 0 {
            None
        } else {
            Some(&self.items[self.items.len() - 1])
        }
    }

    /// The first relationship, if any.
    pub fn first_relationship(&self) -> (r: Option<&SemanticRelationship>)
        ensures
            self.relationships@.len() == 0 ==> r is None,
            self.relationships@.len() > 0 ==> r == Some(&self.relationships@[0]),
    {
        if self.relationships.len() == 0 {
            None
        } else {
            Some(&self.relationships[0])
        }
    }

    /// The last relationship, if any.
    pub fn last_relationship(&self) -> (r: Option<&SemanticRelationship>)
        ensures
            self.relationships@.len() == 0 ==> r is None,
            self.relationships@.len() > 0 ==> r == Some(&self.relationships@.last()),
    {
        if self.relationships.len() == 0 {
            None
        } else {
            Some(&self.relationships[self.relationships.len() - 1])
        }
    }

    /// Number of items.
    pub fn items_count(&self) -> (r: usize)
        ensures
            r == self.items@.len(),
    {
        self.items.len()
    }

    /// Number of relationships.
    pub fn relationships_count(&self) -> (r: usize)
        ensures
            r == self.relationships@.len(),
    {
        self.relationships.len()
    }
}

/// Keeps the items that are at the other end of some relationship of `rels` from `id`.
pub open spec fn related_pred(rels: Seq<SemanticRelationship>, id: Seq<char>) -> spec_fn(SemanticItem) -> bool {
    |it: SemanticItem| exists|k: int| 0 <= k < rels.len() && other_end(#[trigger] rels[k], id) == Some(it.id@)
}

/// Keeps the items whose id occurs in `ids`.
pub open spec fn item_in_list(ids: Seq<String>) -> spec_fn(SemanticItem) -> bool {
    |it: SemanticItem| crate::item::strings_view(ids).contains(it.id@)
}

/// Keeps the relationships whose id occurs in `ids`.
pub open spec fn rel_in_list(ids: Seq<String>) -> spec_fn(SemanticRelationship) -> bool {
    |r: SemanticRelationship| crate::item::strings_view(ids).contains(r.id@)
}

/// Some reference of `v` points to a string with the characters `x`.
pub open spec fn refs_hold(v: Seq<&String>, x: Seq<char>) -> bool {
    exists|j: int| 0 <= j < v.len() && (*(#[trigger] v[j]))@ == x
}

/// One of the first `k` relationships of `rels` has `x` at its other end from `id`.
pub open spec fn ends_before(rels: Seq<SemanticRelationship>, id: Seq<char>, k: int, x: Seq<char>) -> bool {
    exists|m: int| 0 <= m < k && other_end(#[trigger] rels[m], id) == Some(x)
}

/// Whether `x` occurs among the referenced strings.
fn refs_contain(v: &Vec<&String>, x: &str) -> (r: bool)
    ensures
        r == refs_hold(v@, x@),
{
    let k = chars_of(x);
    let mut i: usize = 0;
    while i < v.len()
        invariant
            i <= v@.len(),
            k@ == x@,
            forall|j: int| 0 <= j < i ==> (*(#[trigger] v@[j]))@ != x@,
        decreases v.len() - i,
    {
        let c = chars_of(v[i].as_str());
        if chars_eq(&c, &k) {
            return true;
        }
        i = i + 1;
    }
    false
}

/// Whether the slice `list` holds a string equal to `x`.
fn list_contains(list: &[String], x: &str) -> (r: bool)
    ensures
        r == crate::item::strings_view(list@).contains(x@),
{
    let k = chars_of(x);
    let mut i: usize = 0;
    while i < list.len()
        invariant
            i <= list@.len(),
            k@ == x@,
            forall|j: int| 0 <= j < i ==> (#[trigger] list@[j])@ != x@,
        decreases list.len() - i,
    {
        let c = chars_of(list[i].as_str());
        if chars_eq(&c, &k) {
            assert(crate::item::strings_view(list@)[i as int] == x@);
            return true;
        }
        i = i + 1;
    }
    assert forall|j: int| 0 <= j < crate::item::strings_view(list@).len() implies crate::item::strings_view(list@)[j]
        != x@ by {
        assert(crate::item::strings_view(list@)[j] == list@[j]@);
    }
    false
}

impl SemanticMemory {
    /// The relationships that touch `item_id`, in order.
    pub fn get_relationships_for_item(&self, item_id: &str) -> (r: Vec<&SemanticRelationship>)
        ensures
            crate::item::derefs(r@) == self.relationships@.filter(involving(item_id@)),
    {
        let mut r: Vec<&SemanticRelationship> = Vec::new();
        let mut i: usize = 0;
        while i < self.relationships.len()
            invariant
                i <= self.relationships@.len(),
                crate::item::derefs(r@) == self.relationships@.take(i as int).filter(involving(item_id@)),
            decreases self.relationships.len() - i,
        {
            proof {
                lemma_filter_step(self.relationships@, i as int, involving(item_id@));
            }
            if self.relationships[i].involves_item(item_id) {
                let ghost before = crate::item::derefs(r@);
                r.push(&self.relationships[i]);
                assert(crate::item::derefs(r@) =~= before.push(self.relationships@[i as int]));
            }
            i = i + 1;
        }
        proof {
            lemma_take_full(self.relationships@);
        }
        r
    }

    /// The relationships that start at `item_id`, in order.
    pub fn get_outgoing_relationships(&self, item_id: &str) -> (r: Vec<&SemanticRelationship>)
        ensures
            crate::item::derefs(r@) == self.relationships@.filter(starting_at(item_id@)),
    {
        let mut r: Vec<&SemanticRelationship> = Vec::new();
        let mut i: usize = 0;
        while i < self.relationships.len()
            invariant
                i <= self.relationships@.len(),
                crate::item::derefs(r@) == self.relationships@.take(i as int).filter(starting_at(item_id@)),
            decreases self.relationships.len() - i,
        {
            proof {
                lemma_filter_step(self.relationships@, i as int, starting_at(item_id@));
            }
            if crate::text::str_eq(self.relationships[i].source_id.as_str(), item_id) {
                let ghost before = crate::item::derefs(r@);
                r.push(&self.relationships[i]);
                assert(crate::item::derefs(r@) =~= before.push(self.relationships@[i as int]));
            }
            i = i + 1;
        }
        proof {
            lemma_take_full(self.relationships@);
        }
        r
    }

    /// The relationships that end at `item_id`, in order.
    pub fn get_incoming_relationships(&self, item_id: &str) -> (r: Vec<&SemanticRelationship>)
        ensures
            crate::item::derefs(r@) == self.relationships@.filter(ending_at(item_id@)),
    {
        let mut r: Vec<&SemanticRelationship> = Vec::new();
        let mut i: usize = 0;
        while i < self.relationships.len()
            invariant
                i <= self.relationships@.len(),
                crate::item::derefs(r@) == self.relationships@.take(i as int).filter(ending_at(item_id@)),
            decreases self.relationships.len() - i,
        {
            proof {
                lemma_filter_step(self.relationships@, i as int, ending_at(item_id@));
            }
            if crate::text::str_eq(self.relationships[i].target_id.as_str(), item_id) {
                let ghost before = crate::item::derefs(r@);
                r.push(&self.relationships[i]);
                assert(crate::item::derefs(r@) =~= before.push(self.relationships@[i as int]));
            }
            i = i + 1;
        }
        proof {
            lemma_take_full(self.relationships@);
        }
        r
    }

    /// The items at the other end of a relationship from `item_id`, in item order (an
    /// item reached through several relationships is listed once).
    pub fn get_related_items(&self, item_id: &str) -> (r: Vec<&SemanticItem>)
        ensures
            crate::item::derefs(r@) == self.items@.filter(related_pred(self.relationships@, item_id@)),
    {
        let mut related: Vec<&String> = Vec::new();
        let mut k: usize = 0;
        while k < self.relationships.len()
            invariant
                k <= self.relationships@.len(),
                forall|x: Seq<char>| #[trigger] refs_hold(related@, x) <==> ends_before(self.relationships@, item_id@, k as int, x),
            decreases self.relationships.len() - k,
        {
            let ghost before = related@;
            match self.relationships[k].get_other_item_id(item_id) {
                Some(o) => {
                    related.push(o);
                    proof {
                        assert forall|x: Seq<char>| #[trigger] refs_hold(related@, x) <==> ends_before(self.relationships@, item_id@, k + 1, x) by {
                            if refs_hold(related@, x) {
                                let j = choose|j: int| 0 <= j < related@.len() && (*(#[trigger] related@[j]))@ == x;
                                if j < before.len() {
                                    assert(before[j] == related@[j]);
                                    assert(refs_hold(before, x));
                                    let m = choose|m: int| 0 <= m < k && other_end(#[trigger] self.relationships@[m], item_id@) == Some(x);
                                } else {
                                    assert(other_end(self.relationships@[k as int], item_id@) == Some(x));
                                }
                            }
                            if ends_before(self.relationships@, item_id@, k + 1, x) {
                                let m = choose|m: int| 0 <= m < k + 1 && other_end(#[trigger] self.relationships@[m], item_id@) == Some(x);
                                if m < k {
                                    assert(ends_before(self.relationships@, item_id@, k as int, x));
                                    assert(refs_hold(before, x));
                                    let j = choose|j: int| 0 <= j < before.len() && (*(#[trigger] before[j]))@ == x;
                                    assert(related@[j] == before[j]);
                                } else {
                                    assert((*related@[before.len() as int])@ == x);
                                }
                            }
                        }
                    }
                },
                None => {
                    proof {
                        assert forall|x: Seq<char>| #[trigger] refs_hold(related@, x) <==> ends_before(self.relationships@, item_id@, k + 1, x) by {
                            if ends_before(self.relationships@, item_id@, k + 1, x) {
                                let m = choose|m: int| 0 <= m < k + 1 && other_end(#[trigger] self.relationships@[m], item_id@) == Some(x);
                                assert(m < k);
                                assert(ends_before(self.relationships@, item_id@, k as int, x));
                            }
                            if refs_hold(related@, x) {
                                assert(refs_hold(before, x));
                                let m = choose|m: int| 0 <= m < k && other_end(#[trigger] self.relationships@[m], item_id@) == Some(x);
                            }
                        }
                    }
                },
            }
            k = k + 1;
        }
        let mut r: Vec<&SemanticItem> = Vec::new();
        let mut i: usize = 0;
        while i < self.items.len()
            invariant
                i <= self.items@.len(),
                forall|x: Seq<char>| #[trigger] refs_hold(related@, x) <==> ends_before(self.relationships@, item_id@, self.relationships@.len() as int, x),
                crate::item::derefs(r@) == self.items@.take(i as int).filter(related_pred(self.relationships@, item_id@)),
            decreases self.items.len() - i,
        {
            proof {
                lemma_filter_step(self.items@, i as int, related_pred(self.relationships@, item_id@));
            }
            let found = refs_contain(&related, self.items[i].id.as_str());
            proof {
                assert(found == refs_hold(related@, self.items@[i as int].id@));
            }
            if found {
                let ghost before = crate::item::derefs(r@);
                r.push(&self.items[i]);
                assert(crate::item::derefs(r@) =~= before.push(self.items@[i as int]));
            }
            i = i + 1;
        }
        proof {
            lemma_take_full(self.items@);
        }
        r
    }

    /// Replaces the first item with id `item_id` by `updated_item`, keeping the stored
    /// id and stamping the update time; a missing id is a validation error.
    pub fn update_item(&mut self, item_id: &str, updated_item: SemanticItem) -> (r: Result<(), MemoryError>)
        ensures
            !old(self).ids().contains(item_id@) ==> (r matches Err(MemoryError::ValidationError(m)) && m@
                == "Item with ID '"@ + item_id@ + "' not found"@ && final(self).items@ == old(self).items@),
            old(self).ids().contains(item_id@) ==> (r is Ok && exists|i: int|
                #[trigger] first_at(old(self).ids(), item_id@, i) && final(self).items@.len() == old(self).items@.len()
                    && (forall|j: int| 0 <= j < old(self).items@.len() && j != i ==> final(self).items@[j] == old(self).items@[j])
                    && final(self).items@[i].id == old(self).items@[i].id
                    && final(self).items@[i].item_type == updated_item.item_type
                    && final(self).items@[i].category == updated_item.category
                    && final(self).items@[i].content == updated_item.content
                    && final(self).items@[i].tags == updated_item.tags
                    && final(self).items@[i].confidence == updated_item.confidence
                    && final(self).items@[i].created_at == updated_item.created_at
                    && final(self).items@[i].metadata == updated_item.metadata),
            final(self).relationships@ == old(self).relationships@,
            final(self).base == old(self).base,
            old(self).well_formed() ==> final(self).well_formed(),
    {
        let now = now_millis();
        self.update_item_at(item_id, updated_item, now)
    }

    /// As `update_item`, with `now` as the time stamped.
    pub fn update_item_at(&mut self, item_id: &str, updated_item: SemanticItem, now: i64) -> (r: Result<(), MemoryError>)
        ensures
            !old(self).ids().contains(item_id@) ==> (r matches Err(MemoryError::ValidationError(m)) && m@
                == "Item with ID '"@ + item_id@ + "' not found"@ && final(self).items@ == old(self).items@),
            old(self).ids().contains(item_id@) ==> (r is Ok && exists|i: int|
                #[trigger] first_at(old(self).ids(), item_id@, i) && final(self).items@.len() == old(self).items@.len()
                    && (forall|j: int| 0 <= j < old(self).items@.len() && j != i ==> final(self).items@[j] == old(self).items@[j])
                    && final(self).items@[i].id == old(self).items@[i].id
                    && final(self).items@[i].item_type == updated_item.item_type
                    && final(self).items@[i].category == updated_item.category
                    && final(self).items@[i].content == updated_item.content
                    && final(self).items@[i].tags == updated_item.tags
                    && final(self).items@[i].confidence == updated_item.confidence
                    && final(self).items@[i].created_at == updated_item.created_at
                    && final(self).items@[i].metadata == updated_item.metadata),
            final(self).relationships@ == old(self).relationships@,
            final(self).base == old(self).base,
            old(self).well_formed() ==> final(self).well_formed(),
            old(self).ids().contains(item_id@) ==> exists|i: int| #[trigger] first_at(old(self).ids(), item_id@, i) && final(self).items@[i].updated_at == now,
    {
        match find_item(&self.items, item_id) {
            Some(pos) => {
                let kept_id = self.items[pos].id.clone();
                let mut item = updated_item;
                item.id = kept_id;
                item.updated_at = now;
                let ghost before = self.items@;
                self.items.set(pos, item);
                proof {
                    assert(first_at(old(self).ids(), item_id@, pos as int));
                    assert(item_ids(self.items@) =~= item_ids(before));
                    if old(self).well_formed() {
                        assert forall|i: int, j: int| 0 <= i < j < self.items@.len() implies self.items@[i].id@
                            != self.items@[j].id@ by {
                            assert(item_ids(before)[i] == before[i].id@);
                            assert(item_ids(before)[j] == before[j].id@);
                            assert(item_ids(self.items@)[i] == self.items@[i].id@);
                            assert(item_ids(self.items@)[j] == self.items@[j].id@);
                        }
                    }
                }
                Ok(())
            },
            None => {
                let msg = join3("Item with ID '", item_id, "' not found");
                Err(MemoryError::ValidationError(msg))
            },
        }
    }

    /// Replaces the first relationship with id `relationship_id` by
    /// `updated_relationship`, keeping the stored id and stamping the update time; a
    /// missing id is a validation error.
    pub fn update_relationship(&mut self, relationship_id: &str, updated_relationship: SemanticRelationship) -> (r:
        Result<(), MemoryError>)
        ensures
            !old(self).relationship_ids().contains(relationship_id@) ==> (r matches Err(MemoryError::ValidationError(m))
                && m@ == "Relationship with ID '"@ + relationship_id@ + "' not found"@ && final(self).relationships@
                == old(self).relationships@),
            old(self).relationship_ids().contains(relationship_id@) ==> (r is Ok && exists|i: int|
                #[trigger] first_at(old(self).relationship_ids(), relationship_id@, i) && final(self).relationships@.len()
                    == old(self).relationships@.len()
                    && (forall|j: int| 0 <= j < old(self).relationships@.len() && j != i ==> final(self).relationships@[j]
                    == old(self).relationships@[j])
                    && final(self).relationships@[i].id == old(self).relationships@[i].id
                    && final(self).relationships@[i].source_id == updated_relationship.source_id
                    && final(self).relationships@[i].target_id == updated_relationship.target_id
                    && final(self).relationships@[i].relationship_type == updated_relationship.relationship_type
                    && final(self).relationships@[i].confidence == updated_relationship.confidence
                    && final(self).relationships@[i].created_at == updated_relationship.created_at
                    && final(self).relationships@[i].metadata == updated_relationship.metadata),
            final(self).items@ == old(self).items@,
            final(self).base == old(self).base,
    {
        let now = now_millis();
        self.update_relationship_at(relationship_id, updated_relationship, now)
    }

    /// As `update_relationship`, with `now` as the time stamped.
    pub fn update_relationship_at(&mut self, relationship_id: &str, updated_relationship: SemanticRelationship, now: i64) -> (r:
        Result<(), MemoryError>)
        ensures
            !old(self).relationship_ids().contains(relationship_id@) ==> (r matches Err(MemoryError::ValidationError(m))
                && m@ == "Relationship with ID '"@ + relationship_id@ + "' not found"@ && final(self).relationships@
                == old(self).relationships@),
            old(self).relationship_ids().contains(relationship_id@) ==> (r is Ok && exists|i: int|
                #[trigger] first_at(old(self).relationship_ids(), relationship_id@, i) && final(self).relationships@.len()
                    == old(self).relationships@.len()
                    && (forall|j: int| 0 <= j < old(self).relationships@.len() && j != i ==> final(self).relationships@[j]
                    == old(self).relationships@[j])
                    && final(self).relationships@[i].id == old(self).relationships@[i].id
                    && final(self).relationships@[i].source_id == updated_relationship.source_id
                    && final(self).relationships@[i].target_id == updated_relationship.target_id
                    && final(self).relationships@[i].relationship_type == updated_relationship.relationship_type
                    && final(self).relationships@[i].confidence == updated_relationship.confidence
                    && final(self).relationships@[i].created_at == updated_relationship.created_at
                    && final(self).relationships@[i].metadata == updated_relationship.metadata),
            final(self).items@ == old(self).items@,
            final(self).base == old(self).base,
            old(self).relationship_ids().contains(relationship_id@) ==> exists|i: int| #[trigger] first_at(old(self).relationship_ids(), relationship_id@, i) && final(self).relationships@[i].updated_at == now,
    {
        match find_relationship(&self.relationships, relationship_id) {
            Some(pos) => {
                let kept_id = self.relationships[pos].id.clone();
                let mut rel = updated_relationship;
                rel.id = kept_id;
                rel.updated_at = now;
                self.relationships.set(pos, rel);
                assert(first_at(old(self).relationship_ids(), relationship_id@, pos as int));
                Ok(())
            },
            None => {
                let msg = join3("Relationship with ID '", relationship_id, "' not found");
                Err(MemoryError::ValidationError(msg))
            },
        }
    }

    /// The items whose id occurs in `item_ids`, in item order.
    pub fn get_items_by_ids(&self, item_ids: &[String]) -> (r: Vec<&SemanticItem>)
        ensures
            crate::item::derefs(r@) == self.items@.filter(item_in_list(item_ids@)),
    {
        let mut r: Vec<&SemanticItem> = Vec::new();
        let mut i: usize = 0;
        while i < self.items.len()
            invariant
                i <= self.items@.len(),
                crate::item::derefs(r@) == self.items@.take(i as int).filter(item_in_list(item_ids@)),
            decreases self.items.len() - i,
        {
            proof {
                lemma_filter_step(self.items@, i as int, item_in_list(item_ids@));
            }
            if list_contains(item_ids, self.items[i].id.as_str()) {
                let ghost before = crate::item::derefs(r@);
                r.push(&self.items[i]);
                assert(crate::item::derefs(r@) =~= before.push(self.items@[i as int]));
            }
            i = i + 1;
        }
        proof {
            lemma_take_full(self.items@);
        }
        r
    }

    /// The relationships whose id occurs in `relationship_ids`, in order.
    pub fn get_relationships_by_ids(&self, relationship_ids: &[String]) -> (r: Vec<&SemanticRelationship>)
        ensures
            crate::item::derefs(r@) == self.relationships@.filter(rel_in_list(relationship_ids@)),
    {
        let mut r: Vec<&SemanticRelationship> = Vec::new();
        let mut i: usize = 0;
        while i < self.relationships.len()
            invariant
                i <= self.relationships@.len(),
                crate::item::derefs(r@) == self.relationships@.take(i as int).filter(rel_in_list(relationship_ids@)),
            decreases self.relationships.len() - i,
        {
            proof {
                lemma_filter_step(self.relationships@, i as int, rel_in_list(relationship_ids@));
            }
            if list_contains(relationship_ids, self.relationships[i].id.as_str()) {
                let ghost before = crate::item::derefs(r@);
                r.push(&self.relationships[i]);
                assert(crate::item::derefs(r@) =~= before.push(self.relationships@[i as int]));
            }
            i = i + 1;
        }
        proof {
            lemma_take_full(self.relationships@);
        }
        r
    }

    /// A deep copy of the memory under a new id.
    pub fn clone_with_new_id(&self, new_id: &str) -> (r: SemanticMemory)
        ensures
            r.base.id@ == new_id@,
            r.base.name == self.base.name,
            r.base.description == self.base.description,
            r.items@.len() == self.items@.len(),
            forall|i: int| 0 <= i < self.items@.len() ==> (#[trigger] r.items@[i]).id == self.items@[i].id
                && r.items@[i].item_type == self.items@[i].item_type && r.items@[i].category == self.items@[i].category
                && r.items@[i].content@ == self.items@[i].content@ && r.items@[i].tags@ == self.items@[i].tags@
                && r.items@[i].confidence == self.items@[i].confidence && r.items@[i].created_at
                == self.items@[i].created_at && r.items@[i].updated_at == self.items@[i].updated_at
                && r.items@[i].meta() == self.items@[i].meta(),
            r.relationships@.len() == self.relationships@.len(),
            forall|i: int| 0 <= i < self.relationships@.len() ==> (#[trigger] r.relationships@[i]).id
                == self.relationships@[i].id && r.relationships@[i].source_id == self.relationships@[i].source_id
                && r.relationships@[i].target_id == self.relationships@[i].target_id
                && r.relationships@[i].confidence == self.relationships@[i].confidence,
    {
        let mut items: Vec<SemanticItem> = Vec::new();
        let mut i: usize = 0;
        while i < self.items.len()
            invariant
                i <= self.items@.len(),
                items@.len() == i,
                forall|j: int| 0 <= j < i ==> (#[trigger] items@[j]).id == self.items@[j].id
                    && items@[j].item_type == self.items@[j].item_type && items@[j].category == self.items@[j].category
                    && items@[j].content@ == self.items@[j].content@ && items@[j].tags@ == self.items@[j].tags@
                    && items@[j].confidence == self.items@[j].confidence && items@[j].created_at
                    == self.items@[j].created_at && items@[j].updated_at == self.items@[j].updated_at
                    && items@[j].meta() == self.items@[j].meta(),
            decreases self.items.len() - i,
        {
            items.push(self.items[i].copy());
            i = i + 1;
        }
        let mut rels: Vec<SemanticRelationship> = Vec::new();
        let mut k: usize = 0;
        while k < self.relationships.len()
            invariant
                k <= self.relationships@.len(),
                rels@.len() == k,
                forall|j: int| 0 <= j < k ==> (#[trigger] rels@[j]).id == self.relationships@[j].id
                    && rels@[j].source_id == self.relationships@[j].source_id && rels@[j].target_id
                    == self.relationships@[j].target_id && rels@[j].confidence == self.relationships@[j].confidence,
            decreases self.relationships.len() - k,
        {
            rels.push(self.relationships[k].copy());
            k = k + 1;
        }
        SemanticMemory {
            base: BaseMemory {
                id: owned(new_id),
                name: self.base.name.clone(),
                description: self.base.description.clone(),
            },
            items,
            relationships: rels,
        }
    }
}

} // verus!
