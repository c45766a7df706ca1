//! Snapshots of a memory: full copies to restore from, the changes since an earlier
//! snapshot, and checks of a snapshot's consistency.

use vstd::prelude::*;
use vstd::string::StringExecFns;
use crate::clock::now_millis;
use crate::error::MemoryError;
use crate::item::{first_at, strings_view, SemanticItem};
use crate::json::json_eq;
use crate::memory::{find_item, find_relationship, item_ids, rel_ids, SemanticMemory};
use crate::meta::{meta_get, meta_view, Metadata};
use crate::meta_quality::{decimal, decimal_text, entry_is_live, lemma_live_covers, live};
use crate::relationship::{same_relationship_type, SemanticRelationship, SemanticRelationshipType};
use crate::text::{chars_eq, chars_of, owned, str_eq};

verus! {

/// A full copy of a memory's items and relationships, taken at `timestamp`
/// (milliseconds since the Unix epoch).
#[derive(Debug)]
pub struct MemorySnapshot {
    /// When the snapshot was taken.
    pub timestamp: i64,
    /// How many items the memory held.
    pub item_count: usize,
    /// How many relationships the memory held.
    pub relationship_count: usize,
    /// The items.
    pub items: Vec<SemanticItem>,
    /// The relationships.
    pub relationships: Vec<SemanticRelationship>,
}

/// What a snapshot check found.
#[derive(Debug)]
pub struct SnapshotValidation {
    /// No issue was found.
    pub is_valid: bool,
    /// The issues, in the order they were found.
    pub issues: Vec<String>,
    /// The recorded item count matches the items held.
    pub item_count_match: bool,
    /// The recorded relationship count matches the relationships held.
    pub relationship_count_match: bool,
}

/// Totals over a list of snapshots.
#[derive(Debug)]
pub struct SnapshotStatistics {
    /// How many snapshots there are.
    pub total_snapshots: usize,
    /// Items per snapshot, rounded down.
    pub average_items: usize,
    /// Relationships per snapshot, rounded down.
    pub average_relationships: usize,
    /// The earliest timestamp.
    pub oldest_snapshot: i64,
    /// The latest timestamp.
    pub newest_snapshot: i64,
    /// Milliseconds from the earliest to the latest.
    pub time_span: i64,
}

/// Two items hold the same data: the same fields, and metadata with the same keys and
/// values.
pub open spec fn same_item(a: SemanticItem, b: SemanticItem) -> bool {
    &&& a.id@ == b.id@
    &&& a.item_type == b.item_type
    &&& a.category@ == b.category@
    &&& a.content@ == b.content@
    &&& a.tag_view() == b.tag_view()
    &&& a.confidence == b.confidence
    &&& a.created_at == b.created_at
    &&& a.updated_at == b.updated_at
    &&& a.meta() == b.meta()
}

/// Two relationships hold the same data.
pub open spec fn same_rel(a: SemanticRelationship, b: SemanticRelationship) -> bool {
    &&& a.id@ == b.id@
    &&& a.source_id@ == b.source_id@
    &&& a.target_id@ == b.target_id@
    &&& same_relationship_type(a.relationship_type, b.relationship_type)
    &&& a.confidence == b.confidence
    &&& a.created_at == b.created_at
    &&& a.updated_at == b.updated_at
    &&& meta_view(a.metadata@) == meta_view(b.metadata@)
}

/// The two item lists hold the same data, position by position.
pub open spec fn same_items(a: Seq<SemanticItem>, b: Seq<SemanticItem>) -> bool {
    a.len() == b.len() && forall|i: int| 0 <= i < a.len() ==> same_item(#[trigger] a[i], b[i])
}

/// The two relationship lists hold the same data, position by position.
pub open spec fn same_rels(a: Seq<SemanticRelationship>, b: Seq<SemanticRelationship>) -> bool {
    a.len() == b.len() && forall|i: int| 0 <= i < a.len() ==> same_rel(#[trigger] a[i], b[i])
}

/// Whether two metadata lists describe the same map.
pub fn meta_equal(a: &Metadata, b: &Metadata) -> (r: bool)
    ensures
        r == (meta_view(a@) == meta_view(b@)),
{
    let mut i: usize = 0;
    while i < a.len()
        invariant
            i <= a@.len(),
            forall|j: int|
                0 <= j < i && live(a@, j) ==> meta_view(b@).contains_key(#[trigger] a@[j].0@) && meta_view(b@)[a@[j].0@]
                    == a@[j].1@,
        decreases a.len() - i,
    {
        if entry_is_live(a, i) {
            proof {
                crate::meta::lemma_meta_view_last(a@, i as int);
            }
            match meta_get(b, a[i].0.as_str()) {
                Some(v) => {
                    if !json_eq(v, &a[i].1) {
                        return false;
                    }
                },
                None => {
                    return false;
                },
            }
        }
        i = i + 1;
    }
    let mut k: usize = 0;
    while k < b.len()
        invariant
            k <= b@.len(),
            forall|j: int| 0 <= j < k && live(b@, j) ==> meta_view(a@).contains_key(#[trigger] b@[j].0@),
            forall|j: int|
                0 <= j < a@.len() && live(a@, j) ==> meta_view(b@).contains_key(#[trigger] a@[j].0@) && meta_view(b@)[a@[j].0@]
                    == a@[j].1@,
        decreases b.len() - k,
    {
        if entry_is_live(b, k) {
            proof {
                crate::meta::lemma_meta_view_last(b@, k as int);
            }
            if meta_get(a, b[k].0.as_str()).is_none() {
                return false;
            }
        }
        k = k + 1;
    }
    proof {
        let ma = meta_view(a@);
        let mb = meta_view(b@);
        assert forall|key: Seq<char>| #[trigger] ma.dom().contains(key) implies mb.dom().contains(key) && mb[key] == ma[key] by {
            lemma_live_covers(a@, key);
            let j = choose|j: int| live(a@, j) && (#[trigger] a@[j]).0@ == key;
            crate::meta::lemma_meta_view_last(a@, j);
        }
        assert forall|key: Seq<char>| #[trigger] mb.dom().contains(key) implies ma.dom().contains(key) by {
            lemma_live_covers(b@, key);
            let j = choose|j: int| live(b@, j) && (#[trigger] b@[j]).0@ == key;
            assert(0 <= j < b@.len());
            assert(meta_view(a@).contains_key(b@[j].0@));
        }
        assert(ma.dom() =~= mb.dom());
        assert(ma =~= mb);
    }
    true
}

/// Whether two lists of strings hold the same texts.
fn strings_equal(a: &Vec<String>, b: &Vec<String>) -> (r: bool)
    ensures
        r == (strings_view(a@) == strings_view(b@)),
{
    if a.len() != b.len() {
        assert(strings_view(a@).len() != strings_view(b@).len());
        return false;
    }
    let mut i: usize = 0;
    while i < a.len()
        invariant
            a@.len() == b@.len(),
            i <= a@.len(),
            forall|j: int| 0 <= j < i ==> a@[j]@ == b@[j]@,
        decreases a.len() - i,
    {
        if !str_eq(a[i].as_str(), b[i].as_str()) {
            assert(strings_view(a@)[i as int] != strings_view(b@)[i as int]);
            return false;
        }
        i = i + 1;
    }
    assert(strings_view(a@) =~= strings_view(b@));
    true
}

/// Whether two relationship types are the same kind.
pub fn same_type(a: &SemanticRelationshipType, b: &SemanticRelationshipType) -> (r: bool)
    ensures
        r == same_relationship_type(*a, *b),
{
    match (a, b) {
        (SemanticRelationshipType::Custom(x), SemanticRelationshipType::Custom(y)) => str_eq(x.as_str(), y.as_str()),
        (SemanticRelationshipType::IsA, SemanticRelationshipType::IsA) => true,
        (SemanticRelationshipType::HasA, SemanticRelationshipType::HasA) => true,
        (SemanticRelationshipType::PartOf, SemanticRelationshipType::PartOf) => true,
        (SemanticRelationshipType::RelatedTo, SemanticRelationshipType::RelatedTo) => true,
        (SemanticRelationshipType::Causes, SemanticRelationshipType::Causes) => true,
        _ => false,
    }
}

/// Whether two items hold the same data.
pub fn items_equal(a: &SemanticItem, b: &SemanticItem) -> (r: bool)
    ensures
        r == same_item(*a, *b),
{
    str_eq(a.id.as_str(), b.id.as_str()) && a.item_type == b.item_type && str_eq(
        a.category.as_str(),
        b.category.as_str(),
    ) && json_eq(&a.content, &b.content) && strings_equal(&a.tags, &b.tags) && a.confidence == b.confidence
        && a.created_at == b.created_at && a.updated_at == b.updated_at && meta_equal(&a.metadata, &b.metadata)
}

/// Whether two relationships hold the same data.
pub fn relationships_equal(a: &SemanticRelationship, b: &SemanticRelationship) -> (r: bool)
    ensures
        r == same_rel(*a, *b),
{
    str_eq(a.id.as_str(), b.id.as_str()) && str_eq(a.source_id.as_str(), b.source_id.as_str()) && str_eq(
        a.target_id.as_str(),
        b.target_id.as_str(),
    ) && same_type(&a.relationship_type, &b.relationship_type) && a.confidence == b.confidence && a.created_at
        == b.created_at && a.updated_at == b.updated_at && meta_equal(&a.metadata, &b.metadata)
}

/// Copies of the items.
fn copy_items(v: &Vec<SemanticItem>) -> (r: Vec<SemanticItem>)
    ensures
        same_items(r@, v@),
{
    let mut out: Vec<SemanticItem> = Vec::new();
    let mut i: usize = 0;
    while i < v.len()
        invariant
            i <= v@.len(),
            out@.len() == i,
            forall|j: int| 0 <= j < i ==> same_item(#[trigger] out@[j], v@[j]),
        decreases v.len() - i,
    {
        let c = v[i].copy();
        proof {
            assert(c.tag_view() == v@[i as int].tag_view());
        }
        out.push(c);
        i = i + 1;
    }
    out
}

/// Copies of the relationships.
fn copy_relationships(v: &Vec<SemanticRelationship>) -> (r: Vec<SemanticRelationship>)
    ensures
        same_rels(r@, v@),
{
    let mut out: Vec<SemanticRelationship> = Vec::new();
    let mut i: usize = 0;
    while i < v.len()
        invariant
            i <= v@.len(),
            out@.len() == i,
            forall|j: int| 0 <= j < i ==> same_rel(#[trigger] out@[j], v@[j]),
        decreases v.len() - i,
    {
        out.push(v[i].copy());
        i = i + 1;
    }
    out
}

impl SemanticMemory {
    /// A snapshot of the memory now: copies of its items and relationships, their
    /// counts, and the current time.
    pub fn create_snapshot(&self) -> (r: MemorySnapshot)
        ensures
            r.item_count == self.items@.len(),
            r.relationship_count == self.relationships@.len(),
            same_items(r.items@, self.items@),
            same_rels(r.relationships@, self.relationships@),
    {
        let now = now_millis();
        self.create_snapshot_at(now)
    }

    /// As `create_snapshot`, with `now` as the time stamped.
    pub fn create_snapshot_at(&self, now: i64) -> (r: MemorySnapshot)
        ensures
            r.item_count == self.items@.len(),
            r.relationship_count == self.relationships@.len(),
            same_items(r.items@, self.items@),
            same_rels(r.relationships@, self.relationships@),
            r.timestamp == now,
    {
        MemorySnapshot {
            timestamp: now,
            item_count: self.items.len(),
            relationship_count: self.relationships.len(),
            items: copy_items(&self.items),
            relationships: copy_relationships(&self.relationships),
        }
    }

    /// Replaces the items and relationships with those of the snapshot.
    pub fn restore_from_snapshot(&mut self, snapshot: MemorySnapshot)
        ensures
            final(self).items@ == snapshot.items@,
            final(self).relationships@ == snapshot.relationships@,
            final(self).base == old(self).base,
    {
        self.items = snapshot.items;
        self.relationships = snapshot.relationships;
    }
}


/// The count message when the recorded count differs from the length.
pub open spec fn count_issue(label: Seq<char>, expected: nat, found: nat) -> Seq<Seq<char>> {
    if expected != found {
        seq![label + " count mismatch: expected "@ + decimal(expected) + ", found "@ + decimal(found)]
    } else {
        Seq::empty()
    }
}

/// "Duplicate item ID" for each of the first `n` items whose id an earlier item has.
pub open spec fn duplicate_item_issues(items: Seq<SemanticItem>, n: int) -> Seq<Seq<char>>
    decreases n,
{
    if n <= 0 {
        Seq::empty()
    } else {
        duplicate_item_issues(items, n - 1) + if item_ids(items).take(n - 1).contains(items[n - 1].id@) {
            seq!["Duplicate item ID: "@ + items[n - 1].id@]
        } else {
            Seq::empty()
        }
    }
}

/// "Duplicate relationship ID" for each of the first `n` relationships whose id an
/// earlier one has.
pub open spec fn duplicate_rel_issues(rels: Seq<SemanticRelationship>, n: int) -> Seq<Seq<char>>
    decreases n,
{
    if n <= 0 {
        Seq::empty()
    } else {
        duplicate_rel_issues(rels, n - 1) + if rel_ids(rels).take(n - 1).contains(rels[n - 1].id@) {
            seq!["Duplicate relationship ID: "@ + rels[n - 1].id@]
        } else {
            Seq::empty()
        }
    }
}

/// For each of the first `n` relationships, a message for a source and then for a
/// target that no item has as id.
pub open spec fn dangling_issues(items: Seq<SemanticItem>, rels: Seq<SemanticRelationship>, n: int) -> Seq<Seq<char>>
    decreases n,
{
    if n <= 0 {
        Seq::empty()
    } else {
        let r = rels[n - 1];
        dangling_issues(items, rels, n - 1) + (if !item_ids(items).contains(r.source_id@) {
            seq!["Relationship '"@ + r.id@ + "' references non-existent source item '"@ + r.source_id@ + "'"@]
        } else {
            Seq::<Seq<char>>::empty()
        }) + (if !item_ids(items).contains(r.target_id@) {
            seq!["Relationship '"@ + r.id@ + "' references non-existent target item '"@ + r.target_id@ + "'"@]
        } else {
            Seq::<Seq<char>>::empty()
        })
    }
}

/// Everything `validate_snapshot` finds wrong with a snapshot, in the order it looks.
pub open spec fn snapshot_issues(s: MemorySnapshot) -> Seq<Seq<char>> {
    count_issue("Item"@, s.item_count as nat, s.items@.len()) + count_issue(
        "Relationship"@,
        s.relationship_count as nat,
        s.relationships@.len(),
    ) + duplicate_item_issues(s.items@, s.items@.len() as int) + duplicate_rel_issues(
        s.relationships@,
        s.relationships@.len() as int,
    ) + dangling_issues(s.items@, s.relationships@, s.relationships@.len() as int)
}

fn push_issue(out: &mut Vec<String>, msg: String)
    ensures
        strings_view(final(out)@) == strings_view(old(out)@).push(msg@),
{
    let ghost before = out@;
    out.push(msg);
    assert(strings_view(out@) =~= strings_view(before).push(msg@));
}

fn push_count_issue(out: &mut Vec<String>, label: &str, expected: usize, found: usize)
    ensures
        strings_view(final(out)@) == strings_view(old(out)@) + count_issue(label@, expected as nat, found as nat),
{
    let ghost before = strings_view(out@);
    if expected != found {
        let mut msg = owned(label);
        msg.append(" count mismatch: expected ");
        let e = decimal_text(expected as u128);
        msg.append(e.as_str());
        msg.append(", found ");
        let f = decimal_text(found as u128);
        msg.append(f.as_str());
        push_issue(out, msg);
    }
    assert(strings_view(out@) =~= before + count_issue(label@, expected as nat, found as nat));
}

impl SemanticMemory {
    /// Checks a snapshot: its recorded counts, duplicate item and relationship ids, and
    /// relationships whose ends no item of the snapshot has. Always `Ok`.
    pub fn validate_snapshot(&self, snapshot: &MemorySnapshot) -> (r: Result<SnapshotValidation, MemoryError>)
        ensures
            r matches Ok(v) && strings_view(v.issues@) == snapshot_issues(*snapshot) && v.is_valid == (
            snapshot_issues(*snapshot).len() == 0) && v.item_count_match == (snapshot.item_count
                == snapshot.items@.len()) && v.relationship_count_match == (snapshot.relationship_count
                == snapshot.relationships@.len()),
    {
        let items = &snapshot.items;
        let rels = &snapshot.relationships;
        let mut issues: Vec<String> = Vec::new();
        push_count_issue(&mut issues, "Item", snapshot.item_count, items.len());
        push_count_issue(&mut issues, "Relationship", snapshot.relationship_count, rels.len());
        let ghost head = strings_view(issues@);
        let mut i: usize = 0;
        while i < items.len()
            invariant
                i <= items@.len(),
                strings_view(issues@) == head + duplicate_item_issues(items@, i as int),
            decreases items.len() - i,
        {
            match find_item(items, items[i].id.as_str()) {
                Some(j) => {
                    if j < i {
                        assert(item_ids(items@).take(i as int)[j as int] == items@[i as int].id@);
                        let mut msg = owned("Duplicate item ID: ");
                        msg.append(items[i].id.as_str());
                        push_issue(&mut issues, msg);
                    } else {
                        assert(!item_ids(items@).take(i as int).contains(items@[i as int].id@)) by {
                            if item_ids(items@).take(i as int).contains(items@[i as int].id@) {
                                let k = choose|k: int| 0 <= k < i && item_ids(items@).take(i as int)[k] == items@[i as int].id@;
                                assert(item_ids(items@)[k] == items@[i as int].id@);
                            }
                        }
                    }
                },
                None => {
                    assert(item_ids(items@)[i as int] == items@[i as int].id@);
                },
            }
            assert(strings_view(issues@) =~= head + duplicate_item_issues(items@, i + 1));
            i = i + 1;
        }
        let ghost head2 = strings_view(issues@);
        let mut k: usize = 0;
        while k < rels.len()
            invariant
                k <= rels@.len(),
                strings_view(issues@) == head2 + duplicate_rel_issues(rels@, k as int),
            decreases rels.len() - k,
        {
            match find_relationship(rels, rels[k].id.as_str()) {
                Some(j) => {
                    if j < k {
                        assert(rel_ids(rels@).take(k as int)[j as int] == rels@[k as int].id@);
                        let mut msg = owned("Duplicate relationship ID: ");
                        msg.append(rels[k].id.as_str());
                        push_issue(&mut issues, msg);
                    } else {
                        assert(!rel_ids(rels@).take(k as int).contains(rels@[k as int].id@)) by {
                            if rel_ids(rels@).take(k as int).contains(rels@[k as int].id@) {
                                let t = choose|t: int| 0 <= t < k && rel_ids(rels@).take(k as int)[t] == rels@[k as int].id@;
                                assert(rel_ids(rels@)[t] == rels@[k as int].id@);
                            }
                        }
                    }
                },
                None => {
                    assert(rel_ids(rels@)[k as int] == rels@[k as int].id@);
                },
            }
            assert(strings_view(issues@) =~= head2 + duplicate_rel_issues(rels@, k + 1));
            k = k + 1;
        }
        let ghost head3 = strings_view(issues@);
        let mut t: usize = 0;
        while t < rels.len()
            invariant
                t <= rels@.len(),
                strings_view(issues@) == head3 + dangling_issues(items@, rels@, t as int),
            decreases rels.len() - t,
        {
            let ghost before = strings_view(issues@);
            let r = &rels[t];
            if find_item(items, r.source_id.as_str()).is_none() {
                let mut msg = owned("Relationship '");
                msg.append(r.id.as_str());
                msg.append("' references non-existent source item '");
                msg.append(r.source_id.as_str());
                msg.append("'");
                push_issue(&mut issues, msg);
            }
            if find_item(items, r.target_id.as_str()).is_none() {
                let mut msg = owned("Relationship '");
                msg.append(r.id.as_str());
                msg.append("' references non-existent target item '");
                msg.append(r.target_id.as_str());
                msg.append("'");
                push_issue(&mut issues, msg);
            }
            assert(strings_view(issues@) =~= head3 + dangling_issues(items@, rels@, t + 1));
            t = t + 1;
        }
        assert(strings_view(issues@) =~= snapshot_issues(*snapshot));
        let is_valid = issues.len() == 0;
        Ok(
            SnapshotValidation {
                is_valid,
                issues,
                item_count_match: snapshot.item_count == items.len(),
                relationship_count_match: snapshot.relationship_count == rels.len(),
            },
        )
    }
}


/// The changes from an earlier snapshot to the memory's present state.
#[derive(Debug)]
pub struct IncrementalSnapshot {
    /// When the changes were taken (milliseconds since the Unix epoch).
    pub timestamp: i64,
    /// The timestamp of the snapshot the changes start from.
    pub base_snapshot_timestamp: i64,
    /// Items whose id the earlier snapshot lacks.
    pub added_items: Vec<SemanticItem>,
    /// Items whose data differs from the earlier snapshot's item of that id.
    pub modified_items: Vec<SemanticItem>,
    /// Ids of the earlier snapshot's items that the memory no longer has.
    pub removed_items: Vec<String>,
    /// Relationships whose id the earlier snapshot lacks.
    pub added_relationships: Vec<SemanticRelationship>,
    /// Relationships whose data differs from the earlier snapshot's one of that id.
    pub modified_relationships: Vec<SemanticRelationship>,
    /// Ids of the earlier snapshot's relationships that the memory no longer has.
    pub removed_relationships: Vec<String>,
}

/// Items whose id `base` lacks.
pub open spec fn new_item(base: Seq<SemanticItem>) -> spec_fn(SemanticItem) -> bool {
    |it: SemanticItem| !item_ids(base).contains(it.id@)
}

/// Items whose id `base` has, with data that differs from the first such item of `base`.
pub open spec fn changed_item(base: Seq<SemanticItem>) -> spec_fn(SemanticItem) -> bool {
    |it: SemanticItem|
        item_ids(base).contains(it.id@) && !same_item(it, base[crate::batch::first_pos(item_ids(base), it.id@)])
}

/// Relationships whose id `base` lacks.
pub open spec fn new_rel(base: Seq<SemanticRelationship>) -> spec_fn(SemanticRelationship) -> bool {
    |r: SemanticRelationship| !rel_ids(base).contains(r.id@)
}

/// Relationships whose id `base` has, with data that differs from the first such one.
pub open spec fn changed_rel(base: Seq<SemanticRelationship>) -> spec_fn(SemanticRelationship) -> bool {
    |r: SemanticRelationship|
        rel_ids(base).contains(r.id@) && !same_rel(r, base[crate::batch::first_pos(rel_ids(base), r.id@)])
}

/// Ids of `s` that `present` lacks.
pub open spec fn gone_ids(s: Seq<Seq<char>>, present: Seq<Seq<char>>) -> Seq<Seq<char>> {
    s.filter(|x: Seq<char>| !present.contains(x))
}

/// The sum of the first `n` recorded item counts.
pub open spec fn item_count_sum(s: Seq<MemorySnapshot>, n: int) -> int
    decreases n,
{
    if n <= 0 {
        0
    } else {
        item_count_sum(s, n - 1) + s[n - 1].item_count
    }
}

/// The sum of the first `n` recorded relationship counts.
pub open spec fn rel_count_sum(s: Seq<MemorySnapshot>, n: int) -> int
    decreases n,
{
    if n <= 0 {
        0
    } else {
        rel_count_sum(s, n - 1) + s[n - 1].relationship_count
    }
}

/// `t` is the smallest of the first `n` timestamps (and one of them).
pub open spec fn earliest_is(s: Seq<MemorySnapshot>, n: int, t: i64) -> bool {
    &&& exists|i: int| 0 <= i < n && #[trigger] s[i].timestamp == t
    &&& forall|i: int| 0 <= i < n ==> t <= #[trigger] s[i].timestamp
}

/// `t` is the largest of the first `n` timestamps (and one of them).
pub open spec fn latest_is(s: Seq<MemorySnapshot>, n: int, t: i64) -> bool {
    &&& exists|i: int| 0 <= i < n && #[trigger] s[i].timestamp == t
    &&& forall|i: int| 0 <= i < n ==> #[trigger] s[i].timestamp <= t
}

/// Copies of the items of `cur` that are new (or changed) against `base`.
fn pick_items(cur: &Vec<SemanticItem>, base: &Vec<SemanticItem>, changed: bool) -> (r: Vec<SemanticItem>)
    ensures
        changed ==> same_items(r@, cur@.filter(changed_item(base@))),
        !changed ==> same_items(r@, cur@.filter(new_item(base@))),
{
    let ghost p = if changed { changed_item(base@) } else { new_item(base@) };
    let mut out: Vec<SemanticItem> = Vec::new();
    let mut i: usize = 0;
    while i < cur.len()
        invariant
            i <= cur@.len(),
            p == (if changed { changed_item(base@) } else { new_item(base@) }),
            same_items(out@, cur@.take(i as int).filter(p)),
        decreases cur.len() - i,
    {
        proof {
            crate::seqs::lemma_filter_step(cur@, i as int, p);
        }
        let keep = match find_item(base, cur[i].id.as_str()) {
            Some(j) => {
                proof {
                    crate::batch::lemma_first_pos(item_ids(base@), cur@[i as int].id@, j as int);
                    assert(item_ids(base@)[j as int] == cur@[i as int].id@);
                }
                changed && !items_equal(&cur[i], &base[j])
            },
            None => !changed,
        };
        if keep {
            let c = cur[i].copy();
            let ghost before = out@;
            out.push(c);
            assert(same_items(out@, cur@.take(i + 1).filter(p))) by {
                assert(out@.drop_last() == before);
            }
        }
        i = i + 1;
    }
    proof {
        crate::seqs::lemma_take_full(cur@);
    }
    out
}

/// Copies of the relationships of `cur` that are new (or changed) against `base`.
fn pick_relationships(cur: &Vec<SemanticRelationship>, base: &Vec<SemanticRelationship>, changed: bool) -> (r: Vec<
    SemanticRelationship,
>)
    ensures
        changed ==> same_rels(r@, cur@.filter(changed_rel(base@))),
        !changed ==> same_rels(r@, cur@.filter(new_rel(base@))),
{
    let ghost p = if changed { changed_rel(base@) } else { new_rel(base@) };
    let mut out: Vec<SemanticRelationship> = Vec::new();
    let mut i: usize = 0;
    while i < cur.len()
        invariant
            i <= cur@.len(),
            p == (if changed { changed_rel(base@) } else { new_rel(base@) }),
            same_rels(out@, cur@.take(i as int).filter(p)),
        decreases cur.len() - i,
    {
        proof {
            crate::seqs::lemma_filter_step(cur@, i as int, p);
        }
        let keep = match find_relationship(base, cur[i].id.as_str()) {
            Some(j) => {
                proof {
                    crate::batch::lemma_first_pos(rel_ids(base@), cur@[i as int].id@, j as int);
                    assert(rel_ids(base@)[j as int] == cur@[i as int].id@);
                }
                changed && !relationships_equal(&cur[i], &base[j])
            },
            None => !changed,
        };
        if keep {
            let c = cur[i].copy();
            let ghost before = out@;
            out.push(c);
            assert(same_rels(out@, cur@.take(i + 1).filter(p))) by {
                assert(out@.drop_last() == before);
            }
        }
        i = i + 1;
    }
    proof {
        crate::seqs::lemma_take_full(cur@);
    }
    out
}

/// The ids of `base` (in order) that `cur` lacks.
fn gone_item_ids(base: &Vec<SemanticItem>, cur: &Vec<SemanticItem>) -> (r: Vec<String>)
    ensures
        strings_view(r@) == gone_ids(item_ids(base@), item_ids(cur@)),
{
    let ghost p = |x: Seq<char>| !item_ids(cur@).contains(x);
    let ghost ids = item_ids(base@);
    let mut out: Vec<String> = Vec::new();
    let mut i: usize = 0;
    while i < base.len()
        invariant
            i <= base@.len(),
            ids == item_ids(base@),
            p == (|x: Seq<char>| !item_ids(cur@).contains(x)),
            strings_view(out@) == ids.take(i as int).filter(p),
        decreases base.len() - i,
    {
        proof {
            crate::seqs::lemma_filter_step(ids, i as int, p);
        }
        if find_item(cur, base[i].id.as_str()).is_none() {
            let ghost before = strings_view(out@);
            out.push(base[i].id.clone());
            assert(strings_view(out@) =~= before.push(base@[i as int].id@));
        }
        i = i + 1;
    }
    proof {
        crate::seqs::lemma_take_full(ids);
    }
    out
}

/// The ids of `base` (in order) that `cur` lacks.
fn gone_relationship_ids(base: &Vec<SemanticRelationship>, cur: &Vec<SemanticRelationship>) -> (r: Vec<String>)
    ensures
        strings_view(r@) == gone_ids(rel_ids(base@), rel_ids(cur@)),
{
    let ghost p = |x: Seq<char>| !rel_ids(cur@).contains(x);
    let ghost ids = rel_ids(base@);
    let mut out: Vec<String> = Vec::new();
    let mut i: usize = 0;
    while i < base.len()
        invariant
            i <= base@.len(),
            ids == rel_ids(base@),
            p == (|x: Seq<char>| !rel_ids(cur@).contains(x)),
            strings_view(out@) == ids.take(i as int).filter(p),
        decreases base.len() - i,
    {
        proof {
            crate::seqs::lemma_filter_step(ids, i as int, p);
        }
        if find_relationship(cur, base[i].id.as_str()).is_none() {
            let ghost before = strings_view(out@);
            out.push(base[i].id.clone());
            assert(strings_view(out@) =~= before.push(base@[i as int].id@));
        }
        i = i + 1;
    }
    proof {
        crate::seqs::lemma_take_full(ids);
    }
    out
}

impl Default for SnapshotStatistics {
    fn default() -> (r: SnapshotStatistics)
        ensures
            r.total_snapshots == 0 && r.average_items == 0 && r.average_relationships == 0 && r.oldest_snapshot == 0
                && r.newest_snapshot == 0 && r.time_span == 0,
    {
        SnapshotStatistics {
            total_snapshots: 0,
            average_items: 0,
            average_relationships: 0,
            oldest_snapshot: 0,
            newest_snapshot: 0,
            time_span: 0,
        }
    }
}

impl SemanticMemory {
    /// The changes since `last_snapshot`: items and relationships it lacks, those
    /// whose data changed, and the ids it has that the memory no longer has; each in
    /// order.
    pub fn create_incremental_snapshot(&self, last_snapshot: &MemorySnapshot) -> (r: IncrementalSnapshot)
        ensures
            r.base_snapshot_timestamp == last_snapshot.timestamp,
            same_items(r.added_items@, self.items@.filter(new_item(last_snapshot.items@))),
            same_items(r.modified_items@, self.items@.filter(changed_item(last_snapshot.items@))),
            strings_view(r.removed_items@) == gone_ids(item_ids(last_snapshot.items@), item_ids(self.items@)),
            same_rels(r.added_relationships@, self.relationships@.filter(new_rel(last_snapshot.relationships@))),
            same_rels(
                r.modified_relationships@,
                self.relationships@.filter(changed_rel(last_snapshot.relationships@)),
            ),
            strings_view(r.removed_relationships@) == gone_ids(
                rel_ids(last_snapshot.relationships@),
                rel_ids(self.relationships@),
            ),
            forall|k: int, j: int|
                0 <= k < self.items@.len() && #[trigger] first_at(item_ids(last_snapshot.items@), self.items@[k].id@, j)
                    && !crate::result_laws::item_fields_equal(self.items@[k], last_snapshot.items@[j]) ==> exists|i: int|
                    0 <= i < r.modified_items@.len() && #[trigger] crate::result_laws::item_fields_equal(
                        r.modified_items@[i],
                        self.items@[k],
                    ),
            forall|i: int|
                #![trigger r.modified_items@[i]]
                0 <= i < r.modified_items@.len() ==> exists|j: int|
                    #[trigger] first_at(item_ids(last_snapshot.items@), r.modified_items@[i].id@, j)
                        && !crate::result_laws::item_fields_equal(r.modified_items@[i], last_snapshot.items@[j]),
    {
        let now = now_millis();
        self.create_incremental_snapshot_at(last_snapshot, now)
    }

    /// As `create_incremental_snapshot`, with `now` as the time stamped.
    pub fn create_incremental_snapshot_at(&self, last_snapshot: &MemorySnapshot, now: i64) -> (r: IncrementalSnapshot)
        ensures
            r.base_snapshot_timestamp == last_snapshot.timestamp,
            same_items(r.added_items@, self.items@.filter(new_item(last_snapshot.items@))),
            same_items(r.modified_items@, self.items@.filter(changed_item(last_snapshot.items@))),
            strings_view(r.removed_items@) == gone_ids(item_ids(last_snapshot.items@), item_ids(self.items@)),
            same_rels(r.added_relationships@, self.relationships@.filter(new_rel(last_snapshot.relationships@))),
            same_rels(
                r.modified_relationships@,
                self.relationships@.filter(changed_rel(last_snapshot.relationships@)),
            ),
            strings_view(r.removed_relationships@) == gone_ids(
                rel_ids(last_snapshot.relationships@),
                rel_ids(self.relationships@),
            ),
            forall|k: int, j: int|
                0 <= k < self.items@.len() && #[trigger] first_at(item_ids(last_snapshot.items@), self.items@[k].id@, j)
                    && !crate::result_laws::item_fields_equal(self.items@[k], last_snapshot.items@[j]) ==> exists|i: int|
                    0 <= i < r.modified_items@.len() && #[trigger] crate::result_laws::item_fields_equal(
                        r.modified_items@[i],
                        self.items@[k],
                    ),
            forall|i: int|
                #![trigger r.modified_items@[i]]
                0 <= i < r.modified_items@.len() ==> exists|j: int|
                    #[trigger] first_at(item_ids(last_snapshot.items@), r.modified_items@[i].id@, j)
                        && !crate::result_laws::item_fields_equal(r.modified_items@[i], last_snapshot.items@[j]),
            r.timestamp == now,
    {
        let r = IncrementalSnapshot {
            timestamp: now,
            base_snapshot_timestamp: last_snapshot.timestamp,
            added_items: pick_items(&self.items, &last_snapshot.items, false),
            modified_items: pick_items(&self.items, &last_snapshot.items, true),
            removed_items: gone_item_ids(&last_snapshot.items, &self.items),
            added_relationships: pick_relationships(&self.relationships, &last_snapshot.relationships, false),
            modified_relationships: pick_relationships(&self.relationships, &last_snapshot.relationships, true),
            removed_relationships: gone_relationship_ids(&last_snapshot.relationships, &self.relationships),
        };
        proof {
            crate::result_laws::law_modified_items_are_the_changed_ones(self.items@, last_snapshot.items@, r.modified_items@);
        }
        r
    }

    /// Totals over the snapshots: their number, the items and relationships per
    /// snapshot (rounded down), the earliest and latest timestamps and the time between
    /// them. With no snapshot every field is zero.
    pub fn get_snapshot_statistics(&self, snapshots: &[MemorySnapshot]) -> (r: SnapshotStatistics)
        requires
            item_count_sum(snapshots@, snapshots@.len() as int) <= usize::MAX,
            rel_count_sum(snapshots@, snapshots@.len() as int) <= usize::MAX,
            forall|i: int, j: int|
                0 <= i < snapshots@.len() && 0 <= j < snapshots@.len() ==> #[trigger] snapshots@[i].timestamp
                    - #[trigger] snapshots@[j].timestamp <= i64::MAX,
        ensures
            r.total_snapshots == snapshots@.len(),
            snapshots@.len() == 0 ==> r.average_items == 0 && r.average_relationships == 0 && r.oldest_snapshot == 0
                && r.newest_snapshot == 0 && r.time_span == 0,
            snapshots@.len() > 0 ==> {
                &&& r.average_items == item_count_sum(snapshots@, snapshots@.len() as int) / (snapshots@.len() as int)
                &&& r.average_relationships == rel_count_sum(snapshots@, snapshots@.len() as int) / (
                snapshots@.len() as int)
                &&& earliest_is(snapshots@, snapshots@.len() as int, r.oldest_snapshot)
                &&& latest_is(snapshots@, snapshots@.len() as int, r.newest_snapshot)
                &&& r.time_span == r.newest_snapshot - r.oldest_snapshot
            },
    {
        let n = snapshots.len();
        if n == 0 {
            return SnapshotStatistics::default();
        }
        let mut total_items: usize = 0;
        let mut total_rels: usize = 0;
        let mut oldest: i64 = snapshots[0].timestamp;
        let mut newest: i64 = snapshots[0].timestamp;
        let mut i: usize = 0;
        while i < n
            invariant
                n == snapshots@.len(),
                n > 0,
                i <= n,
                item_count_sum(snapshots@, n as int) <= usize::MAX,
                rel_count_sum(snapshots@, n as int) <= usize::MAX,
                total_items == item_count_sum(snapshots@, i as int),
                total_rels == rel_count_sum(snapshots@, i as int),
                i > 0 ==> earliest_is(snapshots@, i as int, oldest) && latest_is(snapshots@, i as int, newest),
                i == 0 ==> oldest == snapshots@[0].timestamp && newest == snapshots@[0].timestamp,
            decreases n - i,
        {
            proof {
                lemma_count_sums_grow(snapshots@, i as int + 1, n as int);
            }
            total_items = total_items + snapshots[i].item_count;
            total_rels = total_rels + snapshots[i].relationship_count;
            let t = snapshots[i].timestamp;
            if t < oldest {
                oldest = t;
            }
            if t > newest {
                newest = t;
            }
            proof {
                assert(snapshots@[i as int].timestamp == t);
                assert(earliest_is(snapshots@, i + 1, oldest));
                assert(latest_is(snapshots@, i + 1, newest));
            }
            i = i + 1;
        }
        proof {
            let a = choose|a: int| 0 <= a < n && #[trigger] snapshots@[a].timestamp == newest;
            let b = choose|b: int| 0 <= b < n && #[trigger] snapshots@[b].timestamp == oldest;
            assert(snapshots@[a].timestamp - snapshots@[b].timestamp <= i64::MAX);
        }
        SnapshotStatistics {
            total_snapshots: n,
            average_items: total_items / n,
            average_relationships: total_rels / n,
            oldest_snapshot: oldest,
            newest_snapshot: newest,
            time_span: newest - oldest,
        }
    }
}

/// The sums only grow along the list.
proof fn lemma_count_sums_grow(s: Seq<MemorySnapshot>, i: int, n: int)
    requires
        0 <= i <= n,
    ensures
        item_count_sum(s, i) <= item_count_sum(s, n),
        rel_count_sum(s, i) <= rel_count_sum(s, n),
    decreases n - i,
{
    if i < n {
        lemma_count_sums_grow(s, i, n - 1);
    }
}


/// Adds the items one by one, from the first, as `add_item` does; stops at the first
/// whose id is taken. Gives the items reached and the message of the error, if any.
pub open spec fn add_items_run(items: Seq<SemanticItem>, incoming: Seq<SemanticItem>) -> (Seq<SemanticItem>, Option<
    Seq<char>,
>)
    decreases incoming.len(),
{
    if incoming.len() == 0 {
        (items, None)
    } else if item_ids(items).contains(incoming[0].id@) {
        (items, Some("Item with ID '"@ + incoming[0].id@ + "' already exists"@))
    } else {
        add_items_run(items.push(incoming[0]), incoming.drop_first())
    }
}

/// Replaces, for each item in turn, the first item with its id; items whose id is
/// absent are passed over.
pub open spec fn replace_items(items: Seq<SemanticItem>, mods: Seq<SemanticItem>) -> Seq<SemanticItem>
    decreases mods.len(),
{
    if mods.len() == 0 {
        items
    } else if item_ids(items).contains(mods[0].id@) {
        replace_items(items.update(crate::batch::first_pos(item_ids(items), mods[0].id@), mods[0]), mods.drop_first())
    } else {
        replace_items(items, mods.drop_first())
    }
}

/// The error `add_relationship` gives for the relationship, if any.
pub open spec fn rel_refusal(items: Seq<SemanticItem>, rels: Seq<SemanticRelationship>, r: SemanticRelationship) -> Option<
    Seq<char>,
> {
    if !item_ids(items).contains(r.source_id@) {
        Some("Source item '"@ + r.source_id@ + "' not found"@)
    } else if !item_ids(items).contains(r.target_id@) {
        Some("Target item '"@ + r.target_id@ + "' not found"@)
    } else if rel_ids(rels).contains(r.id@) {
        Some("Relationship with ID '"@ + r.id@ + "' already exists"@)
    } else {
        None
    }
}

/// Adds the relationships one by one, from the first, as `add_relationship` does;
/// stops at the first refused. Gives the relationships reached and the error, if any.
pub open spec fn add_rels_run(items: Seq<SemanticItem>, rels: Seq<SemanticRelationship>, incoming: Seq<SemanticRelationship>) -> (
    Seq<SemanticRelationship>,
    Option<Seq<char>>,
)
    decreases incoming.len(),
{
    if incoming.len() == 0 {
        (rels, None)
    } else {
        match rel_refusal(items, rels, incoming[0]) {
            Some(m) => (rels, Some(m)),
            None => add_rels_run(items, rels.push(incoming[0]), incoming.drop_first()),
        }
    }
}

/// Replaces, for each relationship in turn, the first relationship with its id;
/// relationships whose id is absent are passed over.
pub open spec fn replace_rels(rels: Seq<SemanticRelationship>, mods: Seq<SemanticRelationship>) -> Seq<SemanticRelationship>
    decreases mods.len(),
{
    if mods.len() == 0 {
        rels
    } else if rel_ids(rels).contains(mods[0].id@) {
        replace_rels(rels.update(crate::batch::first_pos(rel_ids(rels), mods[0].id@), mods[0]), mods.drop_first())
    } else {
        replace_rels(rels, mods.drop_first())
    }
}

/// The error's message is `m`.
pub open spec fn fails_with(r: Result<(), MemoryError>, m: Seq<char>) -> bool {
    r matches Err(MemoryError::ValidationError(x)) && x@ == m
}

impl SemanticMemory {
    /// Applies changes: removes the listed items (with their relationships) and
    /// relationships, adds the new items, replaces the changed ones, adds the new
    /// relationships and replaces the changed ones, in that order. The first item or
    /// relationship that cannot be added ends the run with its error, leaving what was
    /// done so far.
    pub fn apply_incremental_snapshot(&mut self, snapshot: IncrementalSnapshot) -> (r: Result<(), MemoryError>)
        ensures
            ({
                let s1 = crate::batch::after_item_removals(
                    (old(self).items@, old(self).relationships@),
                    strings_view(snapshot.removed_items@),
                );
                let rels2 = crate::batch::after_rel_removals(s1.1, strings_view(snapshot.removed_relationships@));
                let (items3, e3) = add_items_run(s1.0, snapshot.added_items@);
                let items4 = replace_items(items3, snapshot.modified_items@);
                let (rels5, e5) = add_rels_run(items4, rels2, snapshot.added_relationships@);
                &&& e3 is Some ==> fails_with(r, e3->0) && final(self).items@ == items3 && final(self).relationships@
                    == rels2
                &&& e3 is None && e5 is Some ==> fails_with(r, e5->0) && final(self).items@ == items4
                    && final(self).relationships@ == rels5
                &&& e3 is None && e5 is None ==> r is Ok && final(self).items@ == items4 && final(self).relationships@
                    == replace_rels(rels5, snapshot.modified_relationships@)
            }),
            final(self).base == old(self).base,
    {
        let ghost snap = snapshot;
        let IncrementalSnapshot {
            timestamp: _,
            base_snapshot_timestamp: _,
            added_items,
            modified_items,
            removed_items,
            added_relationships,
            modified_relationships,
            removed_relationships,
        } = snapshot;
        let ghost m0 = (self.items@, self.relationships@);
        let ghost ids = strings_view(removed_items@);
        let mut i: usize = 0;
        while i < removed_items.len()
            invariant
                ids == strings_view(removed_items@),
                i <= removed_items@.len(),
                (self.items@, self.relationships@) == crate::batch::after_item_removals(m0, ids.take(i as int)),
                self.base == old(self).base,
            decreases removed_items.len() - i,
        {
            let ghost t = ids.take(i + 1);
            proof {
                assert(t.drop_last() =~= ids.take(i as int));
                assert(t.last() == ids[i as int]);
            }
            let ghost before = (self.items@, self.relationships@);
            match self.remove_item(removed_items[i].as_str()) {
                Some(item) => {
                    proof {
                        let k = choose|k: int| #[trigger] first_at(item_ids(before.0), ids[i as int], k) && item == before.0[k]
                            && self.items@ == before.0.remove(k) && self.relationships@ == before.1.filter(
                            crate::memory::not_involving(ids[i as int]),
                        );
                        crate::batch::lemma_first_pos(item_ids(before.0), ids[i as int], k);
                    }
                },
                None => {},
            }
            i = i + 1;
        }
        proof {
            crate::seqs::lemma_take_full(ids);
        }
        let ghost s1 = (self.items@, self.relationships@);
        let ghost rids = strings_view(removed_relationships@);
        let mut k: usize = 0;
        while k < removed_relationships.len()
            invariant
                rids == strings_view(removed_relationships@),
                k <= removed_relationships@.len(),
                self.items@ == s1.0,
                self.relationships@ == crate::batch::after_rel_removals(s1.1, rids.take(k as int)),
                self.base == old(self).base,
            decreases removed_relationships.len() - k,
        {
            let ghost t = rids.take(k + 1);
            proof {
                assert(t.drop_last() =~= rids.take(k as int));
                assert(t.last() == rids[k as int]);
            }
            let ghost before = self.relationships@;
            match self.remove_relationship(removed_relationships[k].as_str()) {
                Some(_) => {
                    proof {
                        let j = choose|j: int| #[trigger] first_at(rel_ids(before), rids[k as int], j) && self.relationships@
                            == before.remove(j);
                        crate::batch::lemma_first_pos(rel_ids(before), rids[k as int], j);
                    }
                },
                None => {},
            }
            k = k + 1;
        }
        proof {
            crate::seqs::lemma_take_full(rids);
        }
        let ghost rels2 = self.relationships@;
        let ghost goal3 = add_items_run(s1.0, added_items@);
        let mut incoming = added_items;
        while incoming.len() > 0
            invariant
                add_items_run(self.items@, incoming@) == goal3,
                self.relationships@ == rels2,
                s1 == crate::batch::after_item_removals(
                    (old(self).items@, old(self).relationships@),
                    strings_view(snap.removed_items@),
                ),
                rels2 == crate::batch::after_rel_removals(s1.1, strings_view(snap.removed_relationships@)),
                goal3 == add_items_run(s1.0, snap.added_items@),
                snap == snapshot,
                self.base == old(self).base,
            decreases incoming.len(),
        {
            let ghost inc_before = incoming@;
            let item = incoming.remove(0);
            let ghost rest = incoming@;
            let ghost before = self.items@;
            assert(rest =~= inc_before.drop_first());
            let added = self.add_item(item);
            match added {
                Ok(()) => {
                    assert(add_items_run(before, inc_before) == add_items_run(self.items@, rest));
                },
                Err(e) => {
                    assert(self.items@ == goal3.0);
                    return Err(e);
                },
            }
        }
        let ghost items3 = self.items@;
        let ghost goal4 = replace_items(items3, modified_items@);
        let mut mods = modified_items;
        while mods.len() > 0
            invariant
                replace_items(self.items@, mods@) == goal4,
                self.relationships@ == rels2,
                self.base == old(self).base,
            decreases mods.len(),
        {
            let ghost mods_before = mods@;
            let m = mods.remove(0);
            let ghost before = self.items@;
            assert(mods@ =~= mods_before.drop_first());
            match find_item(&self.items, m.id.as_str()) {
                Some(pos) => {
                    proof {
                        crate::batch::lemma_first_pos(item_ids(self.items@), m.id@, pos as int);
                        assert(item_ids(before)[pos as int] == m.id@);
                    }
                    self.items.set(pos, m);
                },
                None => {},
            }
            assert(replace_items(before, mods_before) == replace_items(self.items@, mods@));
        }
        let ghost items4 = self.items@;
        let ghost goal5 = add_rels_run(items4, rels2, added_relationships@);
        let mut new_rels = added_relationships;
        while new_rels.len() > 0
            invariant
                add_rels_run(items4, self.relationships@, new_rels@) == goal5,
                self.items@ == items4,
                s1 == crate::batch::after_item_removals(
                    (old(self).items@, old(self).relationships@),
                    strings_view(snap.removed_items@),
                ),
                rels2 == crate::batch::after_rel_removals(s1.1, strings_view(snap.removed_relationships@)),
                goal3 == add_items_run(s1.0, snap.added_items@),
                goal3 == (items3, None::<Seq<char>>),
                items4 == replace_items(items3, snap.modified_items@),
                goal5 == add_rels_run(items4, rels2, snap.added_relationships@),
                snap == snapshot,
                self.base == old(self).base,
            decreases new_rels.len(),
        {
            let ghost inc_before = new_rels@;
            let rel = new_rels.remove(0);
            let ghost before = self.relationships@;
            assert(new_rels@ =~= inc_before.drop_first());
            let added = self.add_relationship(rel);
            match added {
                Ok(()) => {
                    assert(add_rels_run(items4, before, inc_before) == add_rels_run(items4, self.relationships@, new_rels@));
                },
                Err(e) => {
                    return Err(e);
                },
            }
        }
        let ghost rels5 = self.relationships@;
        let ghost goal6 = replace_rels(rels5, modified_relationships@);
        let mut rmods = modified_relationships;
        while rmods.len() > 0
            invariant
                replace_rels(self.relationships@, rmods@) == goal6,
                self.items@ == items4,
                self.base == old(self).base,
            decreases rmods.len(),
        {
            let ghost mods_before = rmods@;
            let m = rmods.remove(0);
            let ghost before = self.relationships@;
            assert(rmods@ =~= mods_before.drop_first());
            match find_relationship(&self.relationships, m.id.as_str()) {
                Some(pos) => {
                    proof {
                        crate::batch::lemma_first_pos(rel_ids(self.relationships@), m.id@, pos as int);
                        assert(rel_ids(before)[pos as int] == m.id@);
                    }
                    self.relationships.set(pos, m);
                },
                None => {},
            }
            assert(replace_rels(before, mods_before) == replace_rels(self.relationships@, rmods@));
        }
        Ok(())
    }
}

} // verus!
