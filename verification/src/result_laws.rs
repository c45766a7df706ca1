//! What single results are, stated in plain terms: where a search's text may occur,
//! how sorted times run, how large an edit distance is, which items an incremental
//! snapshot calls modified, and which metadata keys are grouped as duplicates.

use vstd::prelude::*;
use crate::batch::{first_pos, lemma_first_pos};
use crate::item::{first_at, SemanticItem};
use crate::json::JsonValue;
use crate::memory::{item_ids, rel_ids};
use crate::meta_quality::{duplicate_groups, first_of_its_case, keys_lowering_to, live};
use crate::order::sorts_stably;
use crate::queries::{content_has, creation_keys, in_order, update_keys};
use crate::relationship::SemanticRelationship;
use crate::similarity::{distance_defined, key_distance, lev, min3};
use crate::snapshots::{changed_item, changed_rel, same_items, same_rels};
use crate::text::lowercase;

verus! {

broadcast use vstd::seq_lib::group_filter_ensures;

/// `x` occurs in `s`; the first place it does is a first occurrence.
pub proof fn lemma_first_exists(s: Seq<Seq<char>>, x: Seq<char>)
    requires
        s.contains(x),
    ensures
        exists|i: int| #[trigger] first_at(s, x, i),
    decreases s.len(),
{
    let d = s.drop_last();
    if d.contains(x) {
        lemma_first_exists(d, x);
        let i = choose|i: int| #[trigger] first_at(d, x, i);
        assert forall|j: int| 0 <= j <= i implies s[j] == d[j] by {}
        assert(first_at(s, x, i));
    } else {
        assert forall|j: int| 0 <= j < s.len() - 1 implies s[j] != x by {
            assert(d[j] == s[j]);
        }
        assert(first_at(s, x, s.len() - 1));
    }
}

/// A search by content finds an item exactly when its content is a string in which the
/// searched text occurs at some position, not only at the start.
pub proof fn law_content_search_matches_anywhere(items: Seq<SemanticItem>, text: Seq<char>, found: Seq<SemanticItem>)
    requires
        found == items.filter(content_has(text)),
    ensures
        forall|k: int|
            0 <= k < items.len() ==> (found.contains(#[trigger] items[k]) <==> (items[k].content@ is Str && exists|i: int|
                0 <= i && i + text.len() <= items[k].content@->Str_0.len() && #[trigger] items[k].content@->Str_0.subrange(
                    i,
                    i + text.len(),
                ) == text)),
{
    assert forall|k: int| 0 <= k < items.len() implies (found.contains(#[trigger] items[k]) <==> (items[k].content@ is Str
        && exists|i: int|
        0 <= i && i + text.len() <= items[k].content@->Str_0.len() && #[trigger] items[k].content@->Str_0.subrange(
            i,
            i + text.len(),
        ) == text)) by {
        let c = items[k].content@;
        if found.contains(items[k]) {
            let j = choose|j: int| 0 <= j < found.len() && found[j] == items[k];
            assert(content_has(text)(found[j]));
            let i = choose|i: int| crate::text::occurs_at(c->Str_0, text, i);
            assert(c->Str_0.subrange(i, i + text.len()) == text);
        }
        if c is Str && exists|i: int|
            0 <= i && i + text.len() <= c->Str_0.len() && #[trigger] c->Str_0.subrange(i, i + text.len()) == text {
            let i = choose|i: int|
                0 <= i && i + text.len() <= c->Str_0.len() && #[trigger] c->Str_0.subrange(i, i + text.len()) == text;
            assert(crate::text::occurs_at(c->Str_0, text, i));
            assert(content_has(text)(items[k]));
            items.lemma_filter_contains(content_has(text), k);
        }
    }
}

/// Sorting by creation time puts the times in order: rising when `ascending`, falling
/// otherwise, and every item is listed once.
pub proof fn law_sorted_by_creation_orders_times(items: Seq<SemanticItem>, ascending: bool, r: Seq<SemanticItem>)
    requires
        exists|ord: Seq<usize>| #[trigger] sorts_stably(ord, creation_keys(items, ascending)) && r == in_order(items, ord),
    ensures
        r.len() == items.len(),
        forall|i: int, j: int|
            0 <= i < j < r.len() ==> (ascending ==> (#[trigger] r[i]).created_at <= (#[trigger] r[j]).created_at) && (!ascending
                ==> r[i].created_at >= r[j].created_at),
{
    let ord = choose|ord: Seq<usize>| #[trigger] sorts_stably(ord, creation_keys(items, ascending)) && r == in_order(items, ord);
    let keys = creation_keys(items, ascending);
    assert forall|i: int, j: int| 0 <= i < j < r.len() implies (ascending ==> (#[trigger] r[i]).created_at <= (
    #[trigger] r[j]).created_at) && (!ascending ==> r[i].created_at >= r[j].created_at) by {
        assert(keys[ord[i] as int] <= keys[ord[j] as int]);
        assert(r[i] == items[ord[i] as int]);
        assert(r[j] == items[ord[j] as int]);
    }
}

/// Sorting by update time puts the times in order: rising when `ascending`, falling
/// otherwise, and every item is listed once.
pub proof fn law_sorted_by_update_orders_times(items: Seq<SemanticItem>, ascending: bool, r: Seq<SemanticItem>)
    requires
        exists|ord: Seq<usize>| #[trigger] sorts_stably(ord, update_keys(items, ascending)) && r == in_order(items, ord),
    ensures
        r.len() == items.len(),
        forall|i: int, j: int|
            0 <= i < j < r.len() ==> (ascending ==> (#[trigger] r[i]).updated_at <= (#[trigger] r[j]).updated_at) && (!ascending
                ==> r[i].updated_at >= r[j].updated_at),
{
    let ord = choose|ord: Seq<usize>| #[trigger] sorts_stably(ord, update_keys(items, ascending)) && r == in_order(items, ord);
    let keys = update_keys(items, ascending);
    assert forall|i: int, j: int| 0 <= i < j < r.len() implies (ascending ==> (#[trigger] r[i]).updated_at <= (
    #[trigger] r[j]).updated_at) && (!ascending ==> r[i].updated_at >= r[j].updated_at) by {
        assert(keys[ord[i] as int] <= keys[ord[j] as int]);
        assert(r[i] == items[ord[i] as int]);
        assert(r[j] == items[ord[j] as int]);
    }
}

/// The larger of two lengths.
pub open spec fn longer(a: Seq<char>, b: Seq<char>) -> int {
    if a.len() >= b.len() {
        a.len() as int
    } else {
        b.len() as int
    }
}

/// The two texts share no character.
pub open spec fn no_common_char(a: Seq<char>, b: Seq<char>) -> bool {
    forall|i: int, j: int| 0 <= i < a.len() && 0 <= j < b.len() ==> a[i] != b[j]
}

/// An edit distance is at least the difference of the lengths.
pub proof fn lemma_lev_at_least_gap(a: Seq<char>, b: Seq<char>)
    ensures
        lev(a, b) >= a.len() - b.len(),
        lev(a, b) >= b.len() - a.len(),
    decreases a.len() + b.len(),
{
    if a.len() > 0 && b.len() > 0 {
        lemma_lev_at_least_gap(a.drop_last(), b);
        lemma_lev_at_least_gap(a, b.drop_last());
        lemma_lev_at_least_gap(a.drop_last(), b.drop_last());
    }
}

/// Texts with no character in common are as far apart as the longer is long: every
/// character of it has to be written.
pub proof fn lemma_lev_no_common_char(a: Seq<char>, b: Seq<char>)
    requires
        no_common_char(a, b),
    ensures
        lev(a, b) == longer(a, b),
    decreases a.len() + b.len(),
{
    if a.len() > 0 && b.len() > 0 {
        let a1 = a.drop_last();
        let b1 = b.drop_last();
        assert(no_common_char(a1, b)) by {
            assert forall|i: int, j: int| 0 <= i < a1.len() && 0 <= j < b.len() implies a1[i] != b[j] by {
                assert(a1[i] == a[i]);
            }
        }
        assert(no_common_char(a, b1)) by {
            assert forall|i: int, j: int| 0 <= i < a.len() && 0 <= j < b1.len() implies a[i] != b1[j] by {
                assert(b1[j] == b[j]);
            }
        }
        assert(no_common_char(a1, b1)) by {
            assert forall|i: int, j: int| 0 <= i < a1.len() && 0 <= j < b1.len() implies a1[i] != b1[j] by {
                assert(a1[i] == a[i]);
                assert(b1[j] == b[j]);
            }
        }
        lemma_lev_no_common_char(a1, b);
        lemma_lev_no_common_char(a, b1);
        lemma_lev_no_common_char(a1, b1);
        assert(a.last() != b.last()) by {
            assert(a.last() == a[a.len() - 1]);
            assert(b.last() == b[b.len() - 1]);
        }
        assert(lev(a, b) == min3(
            lev(a1, b) + 1,
            lev(a, b1) + 1,
            lev(a1, b1) + 1,
        ));
    }
}

/// The distance between two non-empty keys is their edit distance, uncapped: at
/// least the difference of their lengths, at most the longer length, and exactly the
/// longer length when they share no character.
pub proof fn law_key_distance_is_edit_distance(a: Seq<char>, b: Seq<char>, r: int)
    requires
        distance_defined(a, b),
        r == key_distance(a, b),
        a.len() > 0,
        b.len() > 0,
    ensures
        r == lev(a, b),
        r >= a.len() - b.len(),
        r >= b.len() - a.len(),
        r <= longer(a, b),
        no_common_char(a, b) ==> r == longer(a, b),
{
    lemma_lev_at_least_gap(a, b);
    crate::similarity::lemma_lev_bound(a, b);
    if no_common_char(a, b) {
        lemma_lev_no_common_char(a, b);
    }
}

/// Every field the comparison of snapshots looks at is equal.
pub open spec fn item_fields_equal(a: SemanticItem, b: SemanticItem) -> bool {
    &&& a.id@ == b.id@
    &&& a.item_type == b.item_type
    &&& a.category@ == b.category@
    &&& a.content@ == b.content@
    &&& a.tag_view() == b.tag_view()
    &&& a.confidence == b.confidence
    &&& a.created_at == b.created_at
    &&& a.updated_at == b.updated_at
    &&& a.meta() == b.meta()
}

/// Every field of two relationships is equal.
pub open spec fn rel_fields_equal(a: SemanticRelationship, b: SemanticRelationship) -> bool {
    &&& a.id@ == b.id@
    &&& a.source_id@ == b.source_id@
    &&& a.target_id@ == b.target_id@
    &&& crate::relationship::same_relationship_type(a.relationship_type, b.relationship_type)
    &&& a.confidence == b.confidence
    &&& a.created_at == b.created_at
    &&& a.updated_at == b.updated_at
    &&& crate::meta::meta_view(a.metadata@) == crate::meta::meta_view(b.metadata@)
}

/// An incremental snapshot lists as modified each item whose id the snapshot has and
/// that differs in any field (its content included) from the snapshot's first item of
/// that id; and every item it lists as modified is such an item.
pub proof fn law_modified_items_are_the_changed_ones(items: Seq<SemanticItem>, base: Seq<SemanticItem>, modified: Seq<SemanticItem>)
    requires
        same_items(modified, items.filter(changed_item(base))),
    ensures
        forall|k: int, j: int|
            0 <= k < items.len() && #[trigger] first_at(item_ids(base), items[k].id@, j) && !item_fields_equal(items[k], base[j])
                ==> exists|i: int| 0 <= i < modified.len() && #[trigger] item_fields_equal(modified[i], items[k]),
        forall|i: int|
            #![trigger modified[i]]
            0 <= i < modified.len() ==> exists|j: int|
                #[trigger] first_at(item_ids(base), modified[i].id@, j) && !item_fields_equal(modified[i], base[j]),
{
    let f = items.filter(changed_item(base));
    assert forall|k: int, j: int|
        0 <= k < items.len() && #[trigger] first_at(item_ids(base), items[k].id@, j) && !item_fields_equal(items[k], base[j])
            implies exists|i: int| 0 <= i < modified.len() && #[trigger] item_fields_equal(modified[i], items[k]) by {
        lemma_first_pos(item_ids(base), items[k].id@, j);
        assert(changed_item(base)(items[k]));
        items.lemma_filter_contains(changed_item(base), k);
        let i = choose|i: int| 0 <= i < f.len() && f[i] == items[k];
        assert(item_fields_equal(modified[i], items[k]));
    }
    assert forall|i: int| #![trigger modified[i]] 0 <= i < modified.len() implies exists|j: int|
        #[trigger] first_at(item_ids(base), modified[i].id@, j) && !item_fields_equal(modified[i], base[j]) by {
        assert(changed_item(base)(f[i]));
        lemma_first_exists(item_ids(base), f[i].id@);
        let j = choose|j: int| #[trigger] first_at(item_ids(base), f[i].id@, j);
        lemma_first_pos(item_ids(base), f[i].id@, j);
        assert(first_at(item_ids(base), modified[i].id@, j));
    }
}

/// An incremental snapshot lists as modified each relationship whose id the snapshot
/// has and that differs in any field from the snapshot's first relationship of that
/// id; and every relationship it lists as modified is such a relationship.
pub proof fn law_modified_relationships_are_the_changed_ones(
    rels: Seq<SemanticRelationship>,
    base: Seq<SemanticRelationship>,
    modified: Seq<SemanticRelationship>,
)
    requires
        same_rels(modified, rels.filter(changed_rel(base))),
    ensures
        forall|k: int, j: int|
            0 <= k < rels.len() && #[trigger] first_at(rel_ids(base), rels[k].id@, j) && !rel_fields_equal(rels[k], base[j])
                ==> exists|i: int| 0 <= i < modified.len() && #[trigger] rel_fields_equal(modified[i], rels[k]),
        forall|i: int|
            #![trigger modified[i]]
            0 <= i < modified.len() ==> exists|j: int|
                #[trigger] first_at(rel_ids(base), modified[i].id@, j) && !rel_fields_equal(modified[i], base[j]),
{
    let f = rels.filter(changed_rel(base));
    assert forall|k: int, j: int|
        0 <= k < rels.len() && #[trigger] first_at(rel_ids(base), rels[k].id@, j) && !rel_fields_equal(rels[k], base[j])
            implies exists|i: int| 0 <= i < modified.len() && #[trigger] rel_fields_equal(modified[i], rels[k]) by {
        lemma_first_pos(rel_ids(base), rels[k].id@, j);
        assert(changed_rel(base)(rels[k]));
        rels.lemma_filter_contains(changed_rel(base), k);
        let i = choose|i: int| 0 <= i < f.len() && f[i] == rels[k];
        assert(rel_fields_equal(modified[i], rels[k]));
    }
    assert forall|i: int| #![trigger modified[i]] 0 <= i < modified.len() implies exists|j: int|
        #[trigger] first_at(rel_ids(base), modified[i].id@, j) && !rel_fields_equal(modified[i], base[j]) by {
        assert(changed_rel(base)(f[i]));
        lemma_first_exists(rel_ids(base), f[i].id@);
        let j = choose|j: int| #[trigger] first_at(rel_ids(base), f[i].id@, j);
        lemma_first_pos(rel_ids(base), f[i].id@, j);
        assert(first_at(rel_ids(base), modified[i].id@, j));
    }
}

/// Each live key lower-casing to `low` among the first `n` entries is in the group for `low`.
pub proof fn lemma_group_holds_key(m: Seq<(String, JsonValue)>, low: Seq<char>, n: int, i: int)
    requires
        0 <= i < n <= m.len(),
        live(m, i),
        lowercase(m[i].0@) == low,
    ensures
        keys_lowering_to(m, low, n).contains(m[i].0@),
    decreases n,
{
    let prev = keys_lowering_to(m, low, n - 1);
    if i == n - 1 {
        assert(keys_lowering_to(m, low, n) == prev.push(m[i].0@));
        assert(keys_lowering_to(m, low, n)[prev.len() as int] == m[i].0@);
    } else {
        lemma_group_holds_key(m, low, n - 1, i);
        let j = choose|j: int| 0 <= j < prev.len() && prev[j] == m[i].0@;
        assert(keys_lowering_to(m, low, n)[j] == m[i].0@);
    }
}

/// Every key in the group for `low` lower-cases to `low`.
pub proof fn lemma_group_members(m: Seq<(String, JsonValue)>, low: Seq<char>, n: int)
    ensures
        forall|x: Seq<char>| #[trigger] keys_lowering_to(m, low, n).contains(x) ==> lowercase(x) == low,
    decreases n,
{
    if n > 0 {
        lemma_group_members(m, low, n - 1);
        let prev = keys_lowering_to(m, low, n - 1);
        assert forall|x: Seq<char>| #[trigger] keys_lowering_to(m, low, n).contains(x) implies lowercase(x) == low by {
            let g = keys_lowering_to(m, low, n);
            let j = choose|j: int| 0 <= j < g.len() && g[j] == x;
            if j < prev.len() {
                assert(g[j] == prev[j]);
                assert(prev.contains(x));
            }
        }
    }
}

/// Some live key at or before `a` lower-cases like `a`'s key and is the first to do so.
pub proof fn lemma_first_of_case_exists(m: Seq<(String, JsonValue)>, a: int)
    requires
        live(m, a),
    ensures
        exists|f: int| 0 <= f <= a && live(m, f) && #[trigger] first_of_its_case(m, f) && lowercase(m[f].0@) == lowercase(m[a].0@),
    decreases a,
{
    if !first_of_its_case(m, a) {
        let j = choose|j: int| 0 <= j < a && live(m, j) && lowercase(#[trigger] m[j].0@) == lowercase(m[a].0@);
        lemma_first_of_case_exists(m, j);
    }
}

/// The group of a first key of its case with two or more keys is among the groups.
pub proof fn lemma_group_listed(m: Seq<(String, JsonValue)>, n: int, f: int)
    requires
        0 <= f < n <= m.len(),
        live(m, f),
        first_of_its_case(m, f),
        keys_lowering_to(m, lowercase(m[f].0@), m.len() as int).len() > 1,
    ensures
        duplicate_groups(m, n).contains(keys_lowering_to(m, lowercase(m[f].0@), m.len() as int)),
    decreases n,
{
    let g = keys_lowering_to(m, lowercase(m[f].0@), m.len() as int);
    let prev = duplicate_groups(m, n - 1);
    if f == n - 1 {
        assert(duplicate_groups(m, n) == prev.push(g));
        assert(duplicate_groups(m, n)[prev.len() as int] == g);
    } else {
        lemma_group_listed(m, n - 1, f);
        let j = choose|j: int| 0 <= j < prev.len() && prev[j] == g;
        assert(duplicate_groups(m, n)[j] == g);
    }
}

/// Each listed group is the group of some lower-cased form and holds two or more keys.
pub proof fn lemma_groups_shape(m: Seq<(String, JsonValue)>, n: int)
    ensures
        forall|t: int|
            #![trigger duplicate_groups(m, n)[t]]
            0 <= t < duplicate_groups(m, n).len() ==> exists|low: Seq<char>|
                #[trigger] keys_lowering_to(m, low, m.len() as int) == duplicate_groups(m, n)[t] && duplicate_groups(m, n)[t].len() > 1,
    decreases n,
{
    if n > 0 {
        lemma_groups_shape(m, n - 1);
        let prev = duplicate_groups(m, n - 1);
        let d = duplicate_groups(m, n);
        assert forall|t: int| #![trigger d[t]] 0 <= t < d.len() implies exists|low: Seq<char>|
            #[trigger] keys_lowering_to(m, low, m.len() as int) == d[t] && d[t].len() > 1 by {
            if t < prev.len() {
                assert(d[t] == prev[t]);
            } else {
                let low = lowercase(m[n - 1].0@);
                assert(keys_lowering_to(m, low, m.len() as int) == d[t]);
            }
        }
    }
}

/// Duplicate metadata keys by case: any two different live keys that lower-case alike
/// are listed together in some group, and every group holds two or more keys, all
/// lower-casing alike.
pub proof fn law_case_duplicates_are_grouped(m: Seq<(String, JsonValue)>, groups: Seq<Seq<Seq<char>>>)
    requires
        groups == duplicate_groups(m, m.len() as int),
    ensures
        forall|a: int, b: int|
            #![trigger live(m, a), live(m, b)]
            0 <= a < m.len() && 0 <= b < m.len() && live(m, a) && live(m, b) && m[a].0@ != m[b].0@ && lowercase(m[a].0@)
                == lowercase(m[b].0@) ==> exists|t: int|
                0 <= t < groups.len() && (#[trigger] groups[t]).contains(m[a].0@) && groups[t].contains(m[b].0@),
        forall|t: int|
            0 <= t < groups.len() ==> (#[trigger] groups[t]).len() >= 2 && forall|x: Seq<char>, y: Seq<char>|
                groups[t].contains(x) && groups[t].contains(y) ==> lowercase(x) == lowercase(y),
{
    let n = m.len() as int;
    assert forall|a: int, b: int|
        #![trigger live(m, a), live(m, b)]
        0 <= a < m.len() && 0 <= b < m.len() && live(m, a) && live(m, b) && m[a].0@ != m[b].0@ && lowercase(m[a].0@)
            == lowercase(m[b].0@) implies exists|t: int|
            0 <= t < groups.len() && (#[trigger] groups[t]).contains(m[a].0@) && groups[t].contains(m[b].0@) by {
        let low = lowercase(m[a].0@);
        lemma_first_of_case_exists(m, a);
        let f = choose|f: int| 0 <= f <= a && live(m, f) && #[trigger] first_of_its_case(m, f) && lowercase(m[f].0@) == low;
        let g = keys_lowering_to(m, low, n);
        lemma_group_holds_key(m, low, n, a);
        lemma_group_holds_key(m, low, n, b);
        assert(g.len() > 1) by {
            let i = choose|i: int| 0 <= i < g.len() && g[i] == m[a].0@;
            let j = choose|j: int| 0 <= j < g.len() && g[j] == m[b].0@;
            assert(i != j);
        }
        lemma_group_listed(m, n, f);
        let t = choose|t: int| 0 <= t < groups.len() && groups[t] == g;
        assert(groups[t].contains(m[a].0@));
    }
    lemma_groups_shape(m, n);
    assert forall|t: int| 0 <= t < groups.len() implies (#[trigger] groups[t]).len() >= 2 && forall|x: Seq<char>, y: Seq<char>|
        groups[t].contains(x) && groups[t].contains(y) ==> lowercase(x) == lowercase(y) by {
        let low = choose|low: Seq<char>| #[trigger] keys_lowering_to(m, low, n) == groups[t] && groups[t].len() > 1;
        lemma_group_members(m, low, n);
    }
}

} // verus!
