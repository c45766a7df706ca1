//! Properties the library keeps across calls: what a read gives back after a write,
//! what one operation undoes of another, and which results do not depend on the order
//! of their arguments.

use vstd::prelude::*;
use crate::atomic_stats::{wrapped_sub, StatisticsView};
use crate::graph::{distance_is, follow, is_walk, reachable};
use crate::relationship::{other_end, SemanticRelationship};
use crate::confidence::{parse_confidence, ConfidenceLevel};
use crate::item::SemanticItem;
use crate::json::JsonData;
use crate::memory::{item_ids, not_involving, rel_ids, SemanticMemory};
use crate::snapshots::{
    dangling_issues, duplicate_item_issues, duplicate_rel_issues, same_item, same_items, same_rel, same_rels,
    snapshot_issues, MemorySnapshot,
};
use crate::similarity::{key_distance, keys_similar, lev, lemma_lev_bound};
use crate::meta_quality::{null_keys, rename_pairs, run_renames};
use crate::order::{
    arranged, lemma_arranged_contains, lemma_text_lt_asymmetric, lemma_text_lt_irreflexive, sorts_stably_by_text,
    strictly_sorted, text_lt,
};
use crate::layout::{item_keys, rel_keys};
use crate::clock::{rfc3339_millis, rfc3339_text};
use crate::conversion::{item_object, read_back, readable, sorted_listing, string_elements};
use crate::item_types::{kind_name, parse_type, SemanticItemType};
use crate::error::MemoryError;
use crate::text::{ascii_lowered, ascii_only};
use crate::json::{lemma_first_key_index, JsonValue};
use crate::meta::{lemma_meta_view_keys, lemma_meta_view_last, meta_view};
use crate::text::lowercase;
use crate::batch::ends_among;

verus! {

/// After `add_item` accepts an item, `get_item` with its id finds that very item: it
/// stands at the end of the items and nowhere earlier.
pub proof fn law_added_item_is_found(before: SemanticMemory, after: SemanticMemory, item: SemanticItem)
    requires
        !before.ids().contains(item.id@),
        after.items@ == before.items@.push(item),
    ensures
        after.ids().contains(item.id@),
        forall|i: int| #[trigger] crate::item::first_at(after.ids(), item.id@, i) ==> i == before.items@.len()
            && after.items@[i] == item,
{
    let n = before.items@.len() as int;
    assert(after.ids()[n] == item.id@);
    assert forall|i: int| #[trigger] crate::item::first_at(after.ids(), item.id@, i) implies i == n && after.items@[i]
        == item by {
        if i < n {
            assert(after.ids()[i] == before.ids()[i]);
        }
    }
}

/// Removing an item right after adding it gives back the memory as it was: the same
/// items, and (in a well-formed memory, where nothing can name the new id yet) the
/// same relationships.
pub proof fn law_remove_undoes_add(before: SemanticMemory, after: SemanticMemory, item: SemanticItem)
    requires
        before.well_formed(),
        !before.ids().contains(item.id@),
        after.items@ == before.items@.push(item),
        after.relationships@ == before.relationships@,
    ensures
        forall|i: int| #[trigger] crate::item::first_at(after.ids(), item.id@, i) ==> after.items@.remove(i)
            == before.items@,
        after.relationships@.filter(not_involving(item.id@)) == before.relationships@,
{
    law_added_item_is_found(before, after, item);
    assert forall|i: int| #[trigger] crate::item::first_at(after.ids(), item.id@, i) implies after.items@.remove(i)
        == before.items@ by {
        assert(after.items@.remove(i) =~= before.items@);
    }
    let rels = before.relationships@;
    assert forall|k: int| 0 <= k < rels.len() implies #[trigger] not_involving(item.id@)(rels[k]) by {
        assert(item_ids(before.items@).contains(rels[k].source_id@));
        assert(item_ids(before.items@).contains(rels[k].target_id@));
    }
    crate::seqs::lemma_filter_all(rels, not_involving(item.id@));
}

/// After metadata is set, reading the key gives the value just written and every
/// other key keeps its value; after a key is removed, reading it gives nothing.
pub proof fn law_metadata_read_after_write(
    before: SemanticItem,
    after_set: SemanticItem,
    after_remove: SemanticItem,
    key: Seq<char>,
    value: JsonData,
)
    requires
        after_set.meta() == before.meta().insert(key, value),
        after_remove.meta() == after_set.meta().remove(key),
    ensures
        after_set.meta().contains_key(key) && after_set.meta()[key] == value,
        forall|k: Seq<char>| k != key ==> (#[trigger] after_set.meta().contains_key(k) == before.meta().contains_key(k))
            && (before.meta().contains_key(k) ==> after_set.meta()[k] == before.meta()[k]),
        !after_remove.meta().contains_key(key),
        after_remove.meta() == before.meta().remove(key),
{
    assert(after_remove.meta() =~= before.meta().remove(key));
}

/// A confidence level's name parses back to the level.
pub proof fn law_confidence_name_round_trip(c: ConfidenceLevel)
    ensures
        parse_confidence(c.spec_name()) == Some(c),
{
    reveal_strlit("VeryLow");
    reveal_strlit("Low");
    reveal_strlit("Medium");
    reveal_strlit("High");
    reveal_strlit("VeryHigh");
    assert("VeryLow"@.len() == 7 && "Low"@.len() == 3 && "Medium"@.len() == 6 && "High"@.len() == 4
        && "VeryHigh"@.len() == 8);
    assert("VeryLow"@[0] == 'V' && "VeryHigh"@[4] == 'H' && "VeryLow"@[4] == 'L');
}

/// Going one level up and then one level down (or down, then up) comes back to the
/// level started from.
pub proof fn law_next_levels_undo_each_other(c: ConfidenceLevel)
    ensures
        c.rank() < 4 ==> ConfidenceLevel::from_rank(ConfidenceLevel::from_rank(c.rank() + 1).rank() - 1) == c,
        c.rank() > 0 ==> ConfidenceLevel::from_rank(ConfidenceLevel::from_rank(c.rank() - 1).rank() + 1) == c,
{
    crate::confidence::lemma_next_higher_lower_inverse(c);
}

/// The edit distance does not depend on the order of the two texts.
pub proof fn law_levenshtein_symmetric(a: Seq<char>, b: Seq<char>)
    ensures
        lev(a, b) == lev(b, a),
    decreases a.len() + b.len(),
{
    if a.len() > 0 && b.len() > 0 {
        law_levenshtein_symmetric(a.drop_last(), b);
        law_levenshtein_symmetric(a, b.drop_last());
        law_levenshtein_symmetric(a.drop_last(), b.drop_last());
    }
}

/// A text is at distance 0 from itself.
pub proof fn law_levenshtein_identity(a: Seq<char>)
    ensures
        lev(a, a) == 0,
    decreases a.len(),
{
    if a.len() > 0 {
        law_levenshtein_identity(a.drop_last());
        lemma_lev_bound(a.drop_last(), a);
        lemma_lev_bound(a, a.drop_last());
    }
}

/// Whether two keys look like typos of each other does not depend on their order,
/// and no key is a typo of itself.
pub proof fn law_similar_keys_symmetric(a: Seq<char>, b: Seq<char>)
    ensures
        keys_similar(a, b) == keys_similar(b, a),
        !keys_similar(a, a),
{
    law_levenshtein_symmetric(a, b);
    assert(key_distance(a, b) == key_distance(b, a));
}

/// Every position below `n` lies on exactly one page of `get_paginated_items`: page
/// `x / size + 1`, which is a page that exists, and on no other page.
pub proof fn law_pages_partition(n: int, size: int, x: int)
    requires
        size > 0,
        0 <= x < n,
    ensures
        1 <= x / size + 1 <= (n + size - 1) / size,
        (x / size) * size <= x < if (x / size + 1) * size <= n { (x / size + 1) * size } else { n },
        forall|page: int|
            1 <= page && #[trigger] ((page - 1) * size) <= x && x < page * size ==> page == x / size + 1,
{
    let q = x / size;
    assert(q * size <= x < q * size + size) by (nonlinear_arith)
        requires
            size > 0,
            q == x / size,
            x >= 0,
    ;
    assert(q >= 0) by (nonlinear_arith)
        requires
            size > 0,
            q == x / size,
            x >= 0,
    ;
    assert(q + 1 <= (n + size - 1) / size) by (nonlinear_arith)
        requires
            size > 0,
            q * size <= x,
            x < n,
    ;
    assert((q + 1) * size == q * size + size) by (nonlinear_arith);
    assert forall|page: int| 1 <= page && #[trigger] ((page - 1) * size) <= x && x < page * size implies page == q + 1 by {
        assert(page == q + 1) by (nonlinear_arith)
            requires
                size > 0,
                (page - 1) * size <= x,
                x < page * size,
                q * size <= x < q * size + size,
        ;
    }
}

/// Taking a count away right after adding it gives back the count before.
pub proof fn law_decrement_undoes_increment(v: StatisticsView, count: usize)
    requires
        v.total_items + count <= usize::MAX,
    ensures
        wrapped_sub((v.total_items + count) as usize, count) == v.total_items,
{
}

/// Adding bytes to the memory usage and then subtracting as many gives back the
/// counters as they were, and the subtraction reports the usage from before the
/// addition.
pub proof fn law_subtract_undoes_add_memory(
    before: StatisticsView,
    added: StatisticsView,
    after: StatisticsView,
    bytes: usize,
    reported: usize,
)
    requires
        before.memory_usage_bytes + bytes <= usize::MAX,
        added == (StatisticsView { memory_usage_bytes: (before.memory_usage_bytes + bytes) as usize, ..before }),
        after == (StatisticsView { memory_usage_bytes: wrapped_sub(added.memory_usage_bytes, bytes), ..added }),
        reported == (if added.memory_usage_bytes >= bytes { added.memory_usage_bytes - bytes } else { 0 }),
    ensures
        after == before,
        reported == before.memory_usage_bytes,
{
}

/// Stepping over `r` first and then walking `w` ends where `w` ends from `r`'s other end.
proof fn lemma_follow_prepend(w: Seq<SemanticRelationship>, r: SemanticRelationship, y: Seq<char>, z: Seq<char>)
    requires
        other_end(r, y) == Some(z),
    ensures
        follow(seq![r] + w, y) == follow(w, z),
    decreases w.len(),
{
    if w.len() == 0 {
        assert(seq![r] + w =~= seq![r]);
        assert(seq![r].drop_last() =~= Seq::<SemanticRelationship>::empty());
    } else {
        assert((seq![r] + w).drop_last() =~= seq![r] + w.drop_last());
        assert((seq![r] + w).last() == w.last());
        lemma_follow_prepend(w.drop_last(), r, y, z);
    }
}

/// Every walk can be taken backwards, in as many steps.
proof fn lemma_walk_reversed(rels: Seq<SemanticRelationship>, p: Seq<SemanticRelationship>, a: Seq<char>, y: Seq<char>)
    requires
        is_walk(rels, p, a, y),
    ensures
        exists|q: Seq<SemanticRelationship>| #[trigger] is_walk(rels, q, y, a) && q.len() == p.len(),
    decreases p.len(),
{
    if p.len() == 0 {
        assert(is_walk(rels, p, y, a));
    } else {
        let q0 = p.drop_last();
        let z = follow(q0, a)->0;
        let r = p.last();
        assert(follow(q0, a) is Some);
        assert(other_end(r, z) == Some(y));
        assert forall|i: int| 0 <= i < q0.len() implies rels.contains(#[trigger] q0[i]) by {
            assert(q0[i] == p[i]);
        }
        assert(is_walk(rels, q0, a, z));
        lemma_walk_reversed(rels, q0, a, z);
        let w = choose|w: Seq<SemanticRelationship>| #[trigger] is_walk(rels, w, z, a) && w.len() == q0.len();
        lemma_follow_prepend(w, r, y, z);
        let w2 = seq![r] + w;
        assert(rels.contains(p[p.len() - 1]));
        assert forall|i: int| 0 <= i < w2.len() implies rels.contains(#[trigger] w2[i]) by {
            if i > 0 {
                assert(w2[i] == w[i - 1]);
            }
        }
        assert(is_walk(rels, w2, y, a));
    }
}

/// An item reaches another exactly when the other reaches it: relationships link
/// their ends both ways.
pub proof fn law_reachability_symmetric(rels: Seq<SemanticRelationship>, a: Seq<char>, b: Seq<char>)
    ensures
        reachable(rels, a, b) == reachable(rels, b, a),
{
    if reachable(rels, a, b) {
        let p = choose|p: Seq<SemanticRelationship>| #[trigger] is_walk(rels, p, a, b);
        lemma_walk_reversed(rels, p, a, b);
    }
    if reachable(rels, b, a) {
        let p = choose|p: Seq<SemanticRelationship>| #[trigger] is_walk(rels, p, b, a);
        lemma_walk_reversed(rels, p, b, a);
    }
}

/// The length of a shortest path from `a` to `b` is that of a shortest path from `b`
/// to `a`.
pub proof fn law_distance_symmetric(rels: Seq<SemanticRelationship>, a: Seq<char>, b: Seq<char>, n: int)
    ensures
        distance_is(rels, a, b, n) == distance_is(rels, b, a, n),
{
    if distance_is(rels, a, b, n) {
        lemma_distance_flips(rels, a, b, n);
    }
    if distance_is(rels, b, a, n) {
        lemma_distance_flips(rels, b, a, n);
    }
}

proof fn lemma_distance_flips(rels: Seq<SemanticRelationship>, a: Seq<char>, b: Seq<char>, n: int)
    requires
        distance_is(rels, a, b, n),
    ensures
        distance_is(rels, b, a, n),
{
    let p = choose|p: Seq<SemanticRelationship>| #[trigger] is_walk(rels, p, a, b) && p.len() == n;
    lemma_walk_reversed(rels, p, a, b);
    assert forall|q: Seq<SemanticRelationship>| #[trigger] is_walk(rels, q, b, a) implies q.len() >= n by {
        lemma_walk_reversed(rels, q, b, a);
        let q2 = choose|q2: Seq<SemanticRelationship>| #[trigger] is_walk(rels, q2, a, b) && q2.len() == q.len();
    }
}


/// Restoring a snapshot gives back the data the memory held when the snapshot was
/// taken, and a well-formed memory comes back well formed.
pub proof fn law_snapshot_restores(at_snapshot: SemanticMemory, snapshot: MemorySnapshot, restored: SemanticMemory)
    requires
        same_items(snapshot.items@, at_snapshot.items@),
        same_rels(snapshot.relationships@, at_snapshot.relationships@),
        restored.items@ == snapshot.items@,
        restored.relationships@ == snapshot.relationships@,
    ensures
        same_items(restored.items@, at_snapshot.items@),
        same_rels(restored.relationships@, at_snapshot.relationships@),
        restored.ids() == at_snapshot.ids(),
        restored.relationship_ids() == at_snapshot.relationship_ids(),
        at_snapshot.well_formed() ==> restored.well_formed(),
{
    assert(restored.ids() =~= at_snapshot.ids());
    assert(restored.relationship_ids() =~= at_snapshot.relationship_ids());
    if at_snapshot.well_formed() {
        let rs = restored.relationships@;
        assert forall|k: int| 0 <= k < rs.len() implies item_ids(restored.items@).contains((#[trigger] rs[k]).source_id@)
            && item_ids(restored.items@).contains(rs[k].target_id@) by {
            assert(same_rel(rs[k], at_snapshot.relationships@[k]));
        }
        assert forall|i: int, j: int| 0 <= i < j < rs.len() implies rs[i].id@ != rs[j].id@ by {
            assert(same_rel(rs[i], at_snapshot.relationships@[i]));
            assert(same_rel(rs[j], at_snapshot.relationships@[j]));
        }
        let is = restored.items@;
        assert forall|i: int, j: int| 0 <= i < j < is.len() implies is[i].id@ != is[j].id@ by {
            assert(same_item(is[i], at_snapshot.items@[i]));
            assert(same_item(is[j], at_snapshot.items@[j]));
        }
    }
}

/// No id among the first `n` items occurs earlier, so no duplicate is reported.
proof fn lemma_no_duplicate_items(items: Seq<SemanticItem>, n: int)
    requires
        0 <= n <= items.len(),
        forall|i: int, j: int| 0 <= i < j < items.len() ==> items[i].id@ != items[j].id@,
    ensures
        duplicate_item_issues(items, n) == Seq::<Seq<char>>::empty(),
    decreases n,
{
    if n > 0 {
        lemma_no_duplicate_items(items, n - 1);
        if item_ids(items).take(n - 1).contains(items[n - 1].id@) {
            let k = choose|k: int| 0 <= k < n - 1 && #[trigger] item_ids(items).take(n - 1)[k] == items[n - 1].id@;
            assert(item_ids(items)[k] == items[k].id@);
        }
        assert(duplicate_item_issues(items, n) =~= Seq::<Seq<char>>::empty());
    }
}

/// No id among the first `n` relationships occurs earlier.
proof fn lemma_no_duplicate_rels(rels: Seq<SemanticRelationship>, n: int)
    requires
        0 <= n <= rels.len(),
        forall|i: int, j: int| 0 <= i < j < rels.len() ==> rels[i].id@ != rels[j].id@,
    ensures
        duplicate_rel_issues(rels, n) == Seq::<Seq<char>>::empty(),
    decreases n,
{
    if n > 0 {
        lemma_no_duplicate_rels(rels, n - 1);
        if rel_ids(rels).take(n - 1).contains(rels[n - 1].id@) {
            let k = choose|k: int| 0 <= k < n - 1 && #[trigger] rel_ids(rels).take(n - 1)[k] == rels[n - 1].id@;
            assert(rel_ids(rels)[k] == rels[k].id@);
        }
        assert(duplicate_rel_issues(rels, n) =~= Seq::<Seq<char>>::empty());
    }
}

/// Every end of the first `n` relationships is an item, so none is reported.
proof fn lemma_no_dangling(items: Seq<SemanticItem>, rels: Seq<SemanticRelationship>, n: int)
    requires
        0 <= n <= rels.len(),
        crate::memory::well_formed_parts(items, rels),
    ensures
        dangling_issues(items, rels, n) == Seq::<Seq<char>>::empty(),
    decreases n,
{
    if n > 0 {
        lemma_no_dangling(items, rels, n - 1);
        let r = rels[n - 1];
        assert(item_ids(items).contains(r.source_id@));
        assert(dangling_issues(items, rels, n) =~= Seq::<Seq<char>>::empty());
    }
}

/// A snapshot of a well-formed memory passes `validate_snapshot` with no issue.
pub proof fn law_snapshot_of_sound_memory_validates(memory: SemanticMemory, snapshot: MemorySnapshot)
    requires
        memory.well_formed(),
        snapshot.item_count == memory.items@.len(),
        snapshot.relationship_count == memory.relationships@.len(),
        same_items(snapshot.items@, memory.items@),
        same_rels(snapshot.relationships@, memory.relationships@),
    ensures
        snapshot_issues(snapshot) == Seq::<Seq<char>>::empty(),
{
    let restored = SemanticMemory {
        base: memory.base,
        items: snapshot.items,
        relationships: snapshot.relationships,
    };
    law_snapshot_restores(memory, snapshot, restored);
    let is = snapshot.items@;
    let rs = snapshot.relationships@;
    lemma_no_duplicate_items(is, is.len() as int);
    lemma_no_duplicate_rels(rs, rs.len() as int);
    lemma_no_dangling(is, rs, rs.len() as int);
    assert(snapshot_issues(snapshot) =~= Seq::<Seq<char>>::empty());
}

/// After `cleanup_metadata` no metadata value is null.
pub proof fn law_cleanup_leaves_no_nulls(before: SemanticItem, after: SemanticItem)
    requires
        ({
            let renamed = run_renames(before.meta(), 0, rename_pairs(before.metadata@, before.metadata@.len() as int));
            after.meta() == renamed.0.remove_keys(null_keys(renamed.0))
        }),
    ensures
        forall|k: Seq<char>| #[trigger] after.meta().contains_key(k) ==> after.meta()[k] != JsonData::Null,
{
    let renamed = run_renames(before.meta(), 0, rename_pairs(before.metadata@, before.metadata@.len() as int));
    assert forall|k: Seq<char>| #[trigger] after.meta().contains_key(k) implies after.meta()[k] != JsonData::Null by {
        assert(renamed.0.contains_key(k));
        assert(!null_keys(renamed.0).contains(k));
    }
}

/// Two sorted lists of distinct texts that hold the same texts are the same list.
proof fn lemma_sorted_lists_agree(a: Seq<Seq<char>>, b: Seq<Seq<char>>)
    requires
        strictly_sorted(a),
        strictly_sorted(b),
        forall|y: Seq<char>| #[trigger] a.contains(y) <==> b.contains(y),
    ensures
        a == b,
    decreases a.len(),
{
    if a.len() == 0 {
        if b.len() > 0 {
            assert(b.contains(b[0]));
            assert(!a.contains(b[0]));
        }
        assert(a =~= b);
    } else {
        assert(a.contains(a[0]));
        assert(b.contains(a[0]));
        assert(b.len() > 0);
        assert(b.contains(b[0]));
        assert(a.contains(b[0]));
        let j = choose|j: int| 0 <= j < b.len() && b[j] == a[0];
        let i = choose|i: int| 0 <= i < a.len() && a[i] == b[0];
        if j > 0 {
            assert(crate::order::text_lt(b[0], a[0]));
            if i > 0 {
                assert(crate::order::text_lt(a[0], b[0]));
                lemma_text_lt_asymmetric(a[0], b[0]);
            } else {
                lemma_text_lt_irreflexive(a[0]);
            }
        }
        assert(a[0] == b[0]);
        let ta = a.drop_first();
        let tb = b.drop_first();
        assert forall|y: Seq<char>| #[trigger] ta.contains(y) <==> tb.contains(y) by {
            if ta.contains(y) {
                let k = choose|k: int| 0 <= k < ta.len() && ta[k] == y;
                assert(crate::order::text_lt(a[0], a[k + 1]));
                lemma_text_lt_irreflexive(a[0]);
                assert(a.contains(y));
                assert(b.contains(y));
                let m = choose|m: int| 0 <= m < b.len() && b[m] == y;
                assert(m != 0);
                assert(tb[m - 1] == y);
            }
            if tb.contains(y) {
                let k = choose|k: int| 0 <= k < tb.len() && tb[k] == y;
                assert(crate::order::text_lt(b[0], b[k + 1]));
                lemma_text_lt_irreflexive(b[0]);
                assert(b.contains(y));
                assert(a.contains(y));
                let m = choose|m: int| 0 <= m < a.len() && a[m] == y;
                assert(m != 0);
                assert(ta[m - 1] == y);
            }
        }
        lemma_sorted_lists_agree(ta, tb);
        assert forall|k: int| 0 <= k < a.len() implies a[k] == b[k] by {
            if k > 0 {
                assert(a[k] == ta[k - 1]);
                assert(b[k] == tb[k - 1]);
            }
        }
        assert(a =~= b);
    }
}

/// Normalising the tags a second time changes nothing: a sorted list of distinct tags
/// is fixed by which tags it holds.
pub proof fn law_normalize_tags_idempotent(once: Seq<Seq<char>>, twice: Seq<Seq<char>>)
    requires
        strictly_sorted(once),
        strictly_sorted(twice),
        forall|y: Seq<char>| #[trigger] twice.contains(y) <==> once.contains(y),
    ensures
        twice == once,
{
    lemma_sorted_lists_agree(twice, once);
}

/// Optimising the layout only reorders: the memory holds the same items and the same
/// relationships, as many of each.
pub proof fn law_layout_keeps_contents(before: SemanticMemory, after: SemanticMemory, o1: Seq<usize>, o2: Seq<usize>)
    requires
        sorts_stably_by_text(o1, item_keys(before.items@)),
        after.items@ == arranged(before.items@, o1),
        sorts_stably_by_text(o2, rel_keys(before.relationships@)),
        after.relationships@ == arranged(before.relationships@, o2),
    ensures
        after.items@.len() == before.items@.len(),
        after.relationships@.len() == before.relationships@.len(),
        forall|x: SemanticItem| #[trigger] after.items@.contains(x) <==> before.items@.contains(x),
        forall|x: SemanticRelationship| #[trigger] after.relationships@.contains(x) <==> before.relationships@.contains(x),
{
    lemma_arranged_contains(before.items@, o1, item_keys(before.items@));
    lemma_arranged_contains(before.relationships@, o2, rel_keys(before.relationships@));
}

/// The strings of values that are all strings are those strings.
proof fn lemma_all_strings(a: Seq<JsonValue>, s: Seq<Seq<char>>)
    requires
        a.len() == s.len(),
        forall|i: int| 0 <= i < a.len() ==> (#[trigger] a[i])@ == JsonData::Str(s[i]),
    ensures
        string_elements(a) == s,
    decreases a.len(),
{
    if a.len() > 0 {
        assert forall|i: int| 0 <= i < a.drop_last().len() implies (#[trigger] a.drop_last()[i])@ == JsonData::Str(
            s.drop_last()[i],
        ) by {
            assert(a.drop_last()[i] == a[i]);
        }
        lemma_all_strings(a.drop_last(), s.drop_last());
        assert(a.last()@ == JsonData::Str(s.last()));
        assert(string_elements(a) =~= s);
    }
}

/// Entries whose keys and values list a map in rising key order hold that map.
proof fn lemma_listing_holds_map(o: Seq<(String, JsonValue)>, meta: Seq<(Seq<char>, JsonData)>, m: Map<Seq<char>, JsonData>)
    requires
        o.len() == meta.len(),
        forall|i: int| 0 <= i < o.len() ==> (#[trigger] o[i]).0@ == meta[i].0 && o[i].1@ == meta[i].1,
        sorted_listing(meta, m),
    ensures
        meta_view(o) == m,
{
    assert forall|k: Seq<char>| #[trigger] meta_view(o).contains_key(k) <==> m.contains_key(k) by {
        lemma_meta_view_keys(o, k);
        if meta_view(o).contains_key(k) {
            let i = choose|i: int| 0 <= i < o.len() && (#[trigger] o[i]).0@ == k;
            assert(meta[i].0 == k);
        }
        if m.contains_key(k) {
            let i = choose|i: int| 0 <= i < meta.len() && meta[i].0 == k;
            assert(o[i].0@ == k);
        }
    }
    assert forall|k: Seq<char>| #[trigger] m.contains_key(k) implies meta_view(o)[k] == m[k] by {
        let i = choose|i: int| 0 <= i < meta.len() && meta[i].0 == k;
        assert(o[i].0@ == k);
        assert forall|j: int| i < j < o.len() implies (#[trigger] o[j]).0@ != o[i].0@ by {
            assert(text_lt(meta[i].0, meta[j].0));
            lemma_text_lt_irreflexive(meta[i].0);
        }
        lemma_meta_view_last(o, i);
        assert(m[meta[i].0] == meta[i].1);
    }
    assert(meta_view(o) =~= m);
}

/// Writing an item as a JSON object (`to_value`) and reading the object back
/// (`from_value`) succeeds and gives the item's data again: id, type, category,
/// content, tags, confidence, both timestamps and the metadata. This holds whenever
/// chrono reads back the timestamp texts it wrote and lower-casing the type's name
/// leaves it as it is.
pub proof fn law_value_round_trip(
    item: SemanticItem,
    meta: Seq<(Seq<char>, JsonData)>,
    value: JsonValue,
    back: SemanticItem,
)
    requires
        rfc3339_text(item.created_at) is Some,
        rfc3339_millis(rfc3339_text(item.created_at)->0) == Some(item.created_at),
        rfc3339_text(item.updated_at) is Some,
        rfc3339_millis(rfc3339_text(item.updated_at)->0) == Some(item.updated_at),
        lowercase(kind_name(item.item_type)) == kind_name(item.item_type),
        sorted_listing(meta, item.meta()),
        value@ == item_object(item, rfc3339_text(item.created_at)->0, rfc3339_text(item.updated_at)->0, meta),
    ensures
        readable(value),
        read_back(value, back) ==> {
            &&& back.id@ == item.id@
            &&& back.item_type == item.item_type
            &&& back.category@ == item.category@
            &&& back.content@ == item.content@
            &&& back.tag_view() == item.tag_view()
            &&& back.confidence == item.confidence
            &&& back.created_at == item.created_at
            &&& back.updated_at == item.updated_at
            &&& back.meta() == item.meta()
        },
{
    let tc = rfc3339_text(item.created_at)->0;
    let tu = rfc3339_text(item.updated_at)->0;
    let tags = item.tag_view().map_values(|t: Seq<char>| JsonData::Str(t));
    let pairs = seq![
        ("category"@, JsonData::Str(item.category@)),
        ("confidence"@, JsonData::Str(item.confidence.spec_name())),
        ("content"@, item.content@),
        ("created_at"@, JsonData::Str(tc)),
        ("id"@, JsonData::Str(item.id@)),
        ("item_type"@, JsonData::Str(kind_name(item.item_type))),
        ("metadata"@, JsonData::Object(meta)),
        ("tags"@, JsonData::Array(tags)),
        ("updated_at"@, JsonData::Str(tu)),
    ];
    reveal_strlit("category");
    reveal_strlit("confidence");
    reveal_strlit("content");
    reveal_strlit("created_at");
    reveal_strlit("id");
    reveal_strlit("item_type");
    reveal_strlit("metadata");
    reveal_strlit("tags");
    reveal_strlit("updated_at");
    reveal_strlit("concept");
    reveal_strlit("fact");
    reveal_strlit("rule");
    match value {
        JsonValue::Object(o) => {
            let viewed = Seq::new(
                o@.len(),
                |i: int|
                    if 0 <= i < o@.len() {
                        (o@[i].0@, crate::json::json_data(o@[i].1))
                    } else {
                        (Seq::empty(), JsonData::Null)
                    },
            );
            assert(viewed == pairs);
            assert(o@.len() == 9);
            assert forall|i: int| 0 <= i < 9 implies (#[trigger] o@[i]).0@ == pairs[i].0 && o@[i].1@ == pairs[i].1 by {
                assert(viewed[i] == pairs[i]);
            }
            let os = o@;
            assert("category"@.len() == 8 && "confidence"@.len() == 10 && "content"@.len() == 7
                && "created_at"@.len() == 10 && "id"@.len() == 2 && "item_type"@.len() == 9 && "metadata"@.len() == 8
                && "tags"@.len() == 4 && "updated_at"@.len() == 10);
            assert("concept"@.len() == 7 && "fact"@.len() == 4 && "rule"@.len() == 4);
            assert("fact"@[0] != "rule"@[0]);
            assert("confidence"@[1] != "created_at"@[1]);
            assert("confidence"@[0] != "updated_at"@[0]);
            assert("created_at"@[0] != "updated_at"@[0]);
            assert("category"@[0] != "metadata"@[0]);
            lemma_first_key_index(os, "category"@, 0);
            lemma_first_key_index(os, "confidence"@, 1);
            lemma_first_key_index(os, "content"@, 2);
            lemma_first_key_index(os, "created_at"@, 3);
            lemma_first_key_index(os, "id"@, 4);
            lemma_first_key_index(os, "item_type"@, 5);
            lemma_first_key_index(os, "metadata"@, 6);
            lemma_first_key_index(os, "tags"@, 7);
            lemma_first_key_index(os, "updated_at"@, 8);
            assert("category"@ != "concept"@ && "category"@ != "fact"@ && "category"@ != "rule"@);
            assert("concept"@ != "fact"@ && "concept"@ != "rule"@ && "fact"@ != "rule"@);
            law_confidence_name_round_trip(item.confidence);
            match os[7].1 {
                JsonValue::Array(a) => {
                    let av = Seq::new(
                        a@.len(),
                        |i: int| if 0 <= i < a@.len() { crate::json::json_data(a@[i]) } else { JsonData::Null },
                    );
                    assert(av == tags);
                    assert forall|i: int| 0 <= i < a@.len() implies (#[trigger] a@[i])@ == JsonData::Str(item.tag_view()[i]) by {
                        assert(av[i] == tags[i]);
                    }
                    lemma_all_strings(a@, item.tag_view());
                },
                _ => {
                    assert(false);
                },
            }
            match os[6].1 {
                JsonValue::Object(o2) => {
                    let mv = Seq::new(
                        o2@.len(),
                        |i: int|
                            if 0 <= i < o2@.len() {
                                (o2@[i].0@, crate::json::json_data(o2@[i].1))
                            } else {
                                (Seq::empty(), JsonData::Null)
                            },
                    );
                    assert(mv == meta);
                    assert forall|i: int| 0 <= i < o2@.len() implies (#[trigger] o2@[i]).0@ == meta[i].0 && o2@[i].1@
                        == meta[i].1 by {
                        assert(mv[i] == meta[i]);
                    }
                    lemma_listing_holds_map(o2@, meta, item.meta());
                },
                _ => {
                    assert(false);
                },
            }
        },
        _ => {
            assert(false);
        },
    }
}

/// Compacting twice drops nothing more than compacting once: after one compaction
/// every relationship joins two items of the memory.
pub proof fn law_compact_idempotent(before: SemanticMemory, once: SemanticMemory, twice: SemanticMemory)
    requires
        once.relationships@ == before.relationships@.filter(ends_among(item_ids(before.items@))),
        once.items@ == before.items@,
        twice.relationships@ == once.relationships@.filter(ends_among(item_ids(once.items@))),
        twice.items@ == once.items@,
    ensures
        twice.relationships@ == once.relationships@,
{
    let p = ends_among(item_ids(before.items@));
    crate::seqs::lemma_filter_members(before.relationships@, p);
    assert forall|k: int| 0 <= k < once.relationships@.len() implies #[trigger] p(once.relationships@[k]) by {
        assert(p(before.relationships@.filter(p)[k]));
    }
    crate::seqs::lemma_filter_all(once.relationships@, p);
}

/// Every type's name is ASCII and already lower case.
pub proof fn law_type_names_are_lower_ascii(t: SemanticItemType)
    ensures
        ascii_only(kind_name(t)),
        ascii_lowered(kind_name(t)) == kind_name(t),
{
    reveal_strlit("concept");
    reveal_strlit("fact");
    reveal_strlit("rule");
    reveal_strlit("category");
    let n = kind_name(t);
    assert forall|i: int| 0 <= i < n.len() implies (#[trigger] n[i] as u32) < 0x80 && !('A' <= n[i] && n[i] <= 'Z') by {
    }
    assert(ascii_lowered(n) =~= n);
}

/// `from_string` ignores case on ASCII text: it gives the type whose name the text
/// spells in any mix of upper and lower case, and an error when the text spells no
/// type's name.
pub proof fn law_type_names_ignore_case(s: Seq<char>, r: Result<SemanticItemType, MemoryError>)
    requires
        match parse_type(s) {
            Some(t) => r == Ok::<SemanticItemType, MemoryError>(t),
            None => r is Err,
        },
        ascii_only(s) ==> lowercase(s) == ascii_lowered(s),
        ascii_only(s),
    ensures
        forall|t: SemanticItemType| #[trigger] kind_name(t) == ascii_lowered(s) <==> r == Ok::<SemanticItemType, MemoryError>(t),
        (forall|t: SemanticItemType| #[trigger] kind_name(t) != ascii_lowered(s)) ==> r is Err,
{
    reveal_strlit("concept");
    reveal_strlit("fact");
    reveal_strlit("rule");
    reveal_strlit("category");
    assert("concept"@.len() == 7 && "fact"@.len() == 4 && "rule"@.len() == 4 && "category"@.len() == 8);
    assert("fact"@[0] != "rule"@[0]);
    assert(kind_name(SemanticItemType::Concept) == "concept"@);
    assert(kind_name(SemanticItemType::Fact) == "fact"@);
    assert(kind_name(SemanticItemType::Rule) == "rule"@);
    assert(kind_name(SemanticItemType::Category) == "category"@);
}

} // verus!
