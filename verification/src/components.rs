//! Connected components of the memory graph, found by depth-first search.

use vstd::prelude::*;
use crate::graph::{follow, is_walk, reachable, lemma_distinct_within, lemma_follow_push};
use crate::item::{derefs, strings_view, SemanticItem};
use crate::memory::{item_ids, well_formed_parts, SemanticMemory};
use crate::relationship::{other_end, SemanticRelationship};
use crate::text::str_eq;

verus! {

/// Every id an item or a relationship end of the memory can carry.
pub open spec fn all_ids(items: Seq<SemanticItem>, rels: Seq<SemanticRelationship>) -> Seq<Seq<char>> {
    item_ids(items) + rels.map_values(|r: SemanticRelationship| r.source_id@) + rels.map_values(
        |r: SemanticRelationship| r.target_id@,
    )
}

/// No relationship leads out of `v`: every id one step from an id of `v` is in `v`.
pub open spec fn closed(rels: Seq<SemanticRelationship>, v: Seq<Seq<char>>) -> bool {
    forall|x: Seq<char>, m: int|
        #![trigger v.contains(x), other_end(rels[m], x)]
        v.contains(x) && 0 <= m < rels.len() && other_end(rels[m], x) is Some ==> v.contains(other_end(rels[m], x)->0)
}

/// The ids are pairwise different.
pub open spec fn distinct(v: Seq<Seq<char>>) -> bool {
    forall|i: int, j: int| 0 <= i < j < v.len() ==> v[i] != v[j]
}

/// The items of each component.
pub open spec fn components_view(c: Seq<Vec<&SemanticItem>>) -> Seq<Seq<SemanticItem>> {
    c.map_values(|v: Vec<&SemanticItem>| derefs(v@))
}

/// Some component before the `i`-th holds an item with id `x`.
pub open spec fn covered(cs: Seq<Seq<SemanticItem>>, i: int, x: Seq<char>) -> bool {
    exists|a: int, b: int| 0 <= a < i && 0 <= b < cs[a].len() && #[trigger] cs[a][b].id@ == x
}

/// A relationship works in both directions.
pub proof fn lemma_other_end_symmetric(r: SemanticRelationship, a: Seq<char>, b: Seq<char>)
    requires
        other_end(r, a) == Some(b),
    ensures
        other_end(r, b) == Some(a),
{
}

/// A walk can be carried one step further.
pub proof fn lemma_reach_step(rels: Seq<SemanticRelationship>, a: Seq<char>, x: Seq<char>, m: int, y: Seq<char>)
    requires
        reachable(rels, a, x),
        0 <= m < rels.len(),
        other_end(rels[m], x) == Some(y),
    ensures
        reachable(rels, a, y),
{
    let p = choose|p: Seq<SemanticRelationship>| #[trigger] is_walk(rels, p, a, x);
    lemma_follow_push(p, rels[m], a);
    let q = p.push(rels[m]);
    assert forall|i: int| 0 <= i < q.len() implies rels.contains(#[trigger] q[i]) by {
        if i < p.len() {
            assert(q[i] == p[i]);
        }
    }
    assert(is_walk(rels, q, a, y));
}

/// The empty walk.
pub proof fn lemma_reach_self(rels: Seq<SemanticRelationship>, a: Seq<char>)
    ensures
        reachable(rels, a, a),
{
    assert(is_walk(rels, Seq::empty(), a, a));
}

/// The walk without its last step, and that step.
pub proof fn lemma_walk_last(rels: Seq<SemanticRelationship>, p: Seq<SemanticRelationship>, a: Seq<char>, y: Seq<char>)
    requires
        is_walk(rels, p, a, y),
        p.len() > 0,
    ensures
        follow(p.drop_last(), a) is Some,
        is_walk(rels, p.drop_last(), a, follow(p.drop_last(), a)->0),
        exists|m: int| 0 <= m < rels.len() && #[trigger] other_end(rels[m], follow(p.drop_last(), a)->0) == Some(y),
{
    let q = p.drop_last();
    assert forall|i: int| 0 <= i < q.len() implies rels.contains(#[trigger] q[i]) by {
        assert(q[i] == p[i]);
    }
    assert(rels.contains(p[p.len() - 1]));
    let m = choose|m: int| 0 <= m < rels.len() && rels[m] == p[p.len() - 1];
    assert(other_end(rels[m], follow(q, a)->0) == Some(y));
}

/// A closed set holding the start holds every id a walk reaches.
pub proof fn lemma_closed_reach(rels: Seq<SemanticRelationship>, v: Seq<Seq<char>>, p: Seq<SemanticRelationship>, a: Seq<char>, y: Seq<char>)
    requires
        closed(rels, v),
        v.contains(a),
        is_walk(rels, p, a, y),
    ensures
        v.contains(y),
    decreases p.len(),
{
    if p.len() > 0 {
        lemma_walk_last(rels, p, a, y);
        let z = follow(p.drop_last(), a)->0;
        lemma_closed_reach(rels, v, p.drop_last(), a, z);
        let m = choose|m: int| 0 <= m < rels.len() && #[trigger] other_end(rels[m], z) == Some(y);
        assert(v.contains(other_end(rels[m], z)->0));
    }
}

/// In a well-formed memory a walk of at least one step ends at an item.
pub proof fn lemma_walk_ends_at_item(items: Seq<SemanticItem>, rels: Seq<SemanticRelationship>, p: Seq<SemanticRelationship>, a: Seq<char>, y: Seq<char>)
    requires
        well_formed_parts(items, rels),
        is_walk(rels, p, a, y),
        p.len() > 0,
    ensures
        item_ids(items).contains(y),
{
    lemma_walk_last(rels, p, a, y);
    let z = follow(p.drop_last(), a)->0;
    let m = choose|m: int| 0 <= m < rels.len() && #[trigger] other_end(rels[m], z) == Some(y);
    let _ = rels[m];
}

/// No relationship leads out of `v` from an item's id: every id one step from an id
/// of `v` that an item carries is in `v`.
pub open spec fn closed_at_items(items: Seq<SemanticItem>, rels: Seq<SemanticRelationship>, v: Seq<Seq<char>>) -> bool {
    forall|x: Seq<char>, m: int|
        #![trigger v.contains(x), other_end(rels[m], x)]
        v.contains(x) && item_ids(items).contains(x) && 0 <= m < rels.len() && other_end(rels[m], x) is Some ==> v.contains(
            other_end(rels[m], x)->0,
        )
}

/// Every id the walk `p` from `a` meets, its start and its end included, is an
/// item's id.
pub open spec fn through_items(items: Seq<SemanticItem>, p: Seq<SemanticRelationship>, a: Seq<char>) -> bool
    decreases p.len(),
{
    match follow(p, a) {
        Some(y) => item_ids(items).contains(y) && (p.len() == 0 || through_items(items, p.drop_last(), a)),
        None => false,
    }
}

/// A walk through `rels` that meets only items' ids leads from `a` to `b`.
pub open spec fn item_reachable(items: Seq<SemanticItem>, rels: Seq<SemanticRelationship>, a: Seq<char>, b: Seq<char>) -> bool {
    exists|p: Seq<SemanticRelationship>| #[trigger] is_walk(rels, p, a, b) && through_items(items, p, a)
}

/// A set closed at items that holds the start holds every id a walk through items
/// reaches.
pub proof fn lemma_items_closed_reach(
    items: Seq<SemanticItem>,
    rels: Seq<SemanticRelationship>,
    v: Seq<Seq<char>>,
    p: Seq<SemanticRelationship>,
    a: Seq<char>,
    y: Seq<char>,
)
    requires
        closed_at_items(items, rels, v),
        v.contains(a),
        is_walk(rels, p, a, y),
        through_items(items, p, a),
    ensures
        v.contains(y),
    decreases p.len(),
{
    if p.len() > 0 {
        lemma_walk_last(rels, p, a, y);
        let z = follow(p.drop_last(), a)->0;
        lemma_items_closed_reach(items, rels, v, p.drop_last(), a, z);
        let m = choose|m: int| 0 <= m < rels.len() && #[trigger] other_end(rels[m], z) == Some(y);
        assert(v.contains(other_end(rels[m], z)->0));
    }
}

/// A set closed at items without the start holds nothing a walk through items
/// reaches.
pub proof fn lemma_items_closed_avoid(
    items: Seq<SemanticItem>,
    rels: Seq<SemanticRelationship>,
    v: Seq<Seq<char>>,
    p: Seq<SemanticRelationship>,
    a: Seq<char>,
    y: Seq<char>,
)
    requires
        closed_at_items(items, rels, v),
        !v.contains(a),
        is_walk(rels, p, a, y),
        through_items(items, p, a),
    ensures
        !v.contains(y),
    decreases p.len(),
{
    if p.len() > 0 {
        lemma_walk_last(rels, p, a, y);
        let z = follow(p.drop_last(), a)->0;
        lemma_items_closed_avoid(items, rels, v, p.drop_last(), a, z);
        let m = choose|m: int| 0 <= m < rels.len() && #[trigger] other_end(rels[m], z) == Some(y);
        if v.contains(y) {
            lemma_other_end_symmetric(rels[m], z, y);
            assert(v.contains(other_end(rels[m], y)->0));
        }
    }
}

/// In a well-formed memory every walk from an item's id meets only items' ids.
pub proof fn lemma_walk_through_items(items: Seq<SemanticItem>, rels: Seq<SemanticRelationship>, p: Seq<SemanticRelationship>, a: Seq<char>, y: Seq<char>)
    requires
        well_formed_parts(items, rels),
        item_ids(items).contains(a),
        is_walk(rels, p, a, y),
    ensures
        through_items(items, p, a),
    decreases p.len(),
{
    if p.len() > 0 {
        lemma_walk_last(rels, p, a, y);
        let z = follow(p.drop_last(), a)->0;
        lemma_walk_through_items(items, rels, p.drop_last(), a, z);
        lemma_walk_ends_at_item(items, rels, p, a, y);
    }
}

/// Each id of `all_ids` is in it.
pub proof fn lemma_all_ids(items: Seq<SemanticItem>, rels: Seq<SemanticRelationship>, m: int, k: int)
    ensures
        0 <= m < rels.len() ==> all_ids(items, rels).contains(rels[m].source_id@) && all_ids(items, rels).contains(
            rels[m].target_id@,
        ),
        0 <= k < items.len() ==> all_ids(items, rels).contains(items[k].id@),
{
    let u = all_ids(items, rels);
    let srcs = rels.map_values(|r: SemanticRelationship| r.source_id@);
    let tgts = rels.map_values(|r: SemanticRelationship| r.target_id@);
    let n = items.len();
    if 0 <= m < rels.len() {
        assert(u[n + m] == srcs[m]);
        assert(u[n + rels.len() + m] == tgts[m]);
    }
    if 0 <= k < items.len() {
        assert(u[k] == item_ids(items)[k]);
    }
}

/// Appending keeps what a sequence holds.
pub proof fn lemma_contains_push(s: Seq<Seq<char>>, x: Seq<char>, y: Seq<char>)
    requires
        s.contains(x),
    ensures
        s.push(y).contains(x),
{
    let i = choose|i: int| 0 <= i < s.len() && s[i] == x;
    assert(s.push(y)[i] == x);
}

/// Whether `x` is among the visited ids.
fn seen(v: &Vec<String>, x: &str) -> (r: bool)
    ensures
        r == strings_view(v@).contains(x@),
{
    let mut i: usize = 0;
    while i < v.len()
        invariant
            i <= v@.len(),
            forall|j: int| 0 <= j < i ==> (#[trigger] v@[j])@ != x@,
        decreases v.len() - i,
    {
        if str_eq(v[i].as_str(), x) {
            assert(strings_view(v@)[i as int] == x@);
            return true;
        }
        i = i + 1;
    }
    assert forall|j: int| 0 <= j < strings_view(v@).len() implies strings_view(v@)[j] != x@ by {
        assert(strings_view(v@)[j] == v@[j]@);
    }
    false
}

impl SemanticMemory {
    /// Depth-first search from the item at `root` over ids not yet visited: marks each
    /// id it meets as visited and gives the items met, the root first.
    #[verifier::rlimit(40)]
    fn explore_component(&self, root: usize, visited: &mut Vec<String>) -> (comp: Vec<&SemanticItem>)
        requires
            root < self.items@.len(),
            !strings_view(old(visited)@).contains(self.items@[root as int].id@),
            distinct(strings_view(old(visited)@)),
            forall|i: int|
                0 <= i < old(visited)@.len() ==> all_ids(self.items@, self.relationships@).contains(
                    #[trigger] strings_view(old(visited)@)[i],
                ),
        ensures
            final(visited)@.len() >= old(visited)@.len(),
            forall|i: int| 0 <= i < old(visited)@.len() ==> #[trigger] final(visited)@[i] == old(visited)@[i],
            distinct(strings_view(final(visited)@)),
            forall|i: int|
                0 <= i < final(visited)@.len() ==> all_ids(self.items@, self.relationships@).contains(
                    #[trigger] strings_view(final(visited)@)[i],
                ),
            derefs(comp@).len() >= 1,
            derefs(comp@)[0] == self.items@[root as int],
            forall|j: int|
                0 <= j < derefs(comp@).len() ==> self.items@.contains(#[trigger] derefs(comp@)[j])
                    && !strings_view(old(visited)@).contains(derefs(comp@)[j].id@)
                    && strings_view(final(visited)@).contains(derefs(comp@)[j].id@)
                    && reachable(self.relationships@, self.items@[root as int].id@, derefs(comp@)[j].id@),
            distinct(item_ids(derefs(comp@))),
            forall|x: Seq<char>|
                #[trigger] strings_view(final(visited)@).contains(x) && !strings_view(old(visited)@).contains(x) ==> reachable(
                    self.relationships@,
                    self.items@[root as int].id@,
                    x,
                ) && (item_ids(self.items@).contains(x) ==> item_ids(derefs(comp@)).contains(x)),
            closed_at_items(self.items@, self.relationships@, strings_view(old(visited)@)) ==> closed_at_items(
                self.items@,
                self.relationships@,
                strings_view(final(visited)@),
            ),
    {
        let ghost rels = self.relationships@;
        let ghost items = self.items@;
        let ghost u = all_ids(items, rels);
        let ghost v0 = strings_view(visited@);
        let ghost ov = visited@;
        let ghost root_id = items[root as int].id@;
        let first = &self.items[root];
        let mut comp: Vec<&SemanticItem> = Vec::new();
        comp.push(first);
        let mut stack: Vec<String> = Vec::new();
        stack.push(first.id.clone());
        visited.push(first.id.clone());
        let ghost mut done: Seq<Seq<char>> = Seq::empty();
        proof {
            lemma_all_ids(items, rels, -1, root as int);
            lemma_reach_self(rels, root_id);
            assert(strings_view(visited@) =~= v0.push(root_id));
            assert(strings_view(visited@)[v0.len() as int] == root_id);
            assert(derefs(comp@) =~= seq![items[root as int]]);
            assert(item_ids(derefs(comp@)) =~= seq![root_id]);
            assert(strings_view(stack@) =~= seq![root_id]);
            assert(strings_view(stack@)[0] == root_id);
            assert(item_ids(items)[root as int] == root_id);
            assert(item_ids(derefs(comp@))[0] == root_id);
        }
        while stack.len() > 0
            invariant
                rels == self.relationships@,
                items == self.items@,
                u == all_ids(items, rels),
                v0 == strings_view(ov),
                root < items.len(),
                root_id == items[root as int].id@,
                !v0.contains(root_id),
                visited@.len() >= ov.len(),
                forall|i: int| 0 <= i < ov.len() ==> #[trigger] visited@[i] == ov[i],
                distinct(strings_view(visited@)),
                forall|i: int| 0 <= i < visited@.len() ==> u.contains(#[trigger] strings_view(visited@)[i]),
                strings_view(visited@).contains(root_id),
                derefs(comp@).len() >= 1,
                derefs(comp@)[0] == items[root as int],
                forall|j: int|
                    0 <= j < derefs(comp@).len() ==> items.contains(#[trigger] derefs(comp@)[j]) && !v0.contains(
                        derefs(comp@)[j].id@,
                    ) && strings_view(visited@).contains(derefs(comp@)[j].id@) && reachable(rels, root_id, derefs(comp@)[j].id@),
                distinct(item_ids(derefs(comp@))),
                forall|i: int|
                    0 <= i < stack@.len() ==> strings_view(visited@).contains(#[trigger] strings_view(stack@)[i]) && !v0.contains(
                        strings_view(stack@)[i],
                    ),
                forall|x: Seq<char>|
                    #[trigger] strings_view(visited@).contains(x) && !v0.contains(x) ==> reachable(rels, root_id, x)
                        && (item_ids(items).contains(x) ==> item_ids(derefs(comp@)).contains(x)) && (done.contains(x)
                        || strings_view(stack@).contains(x) || !item_ids(items).contains(x)),
                forall|x: Seq<char>| #[trigger] done.contains(x) ==> strings_view(visited@).contains(x) && !v0.contains(x),
                forall|x: Seq<char>, m: int|
                    #![trigger done.contains(x), other_end(rels[m], x)]
                    done.contains(x) && 0 <= m < rels.len() && other_end(rels[m], x) is Some ==> strings_view(visited@).contains(
                        other_end(rels[m], x)->0,
                    ),
            decreases 2 * (u.len() - visited@.len()) + stack@.len(),
        {
            proof {
                lemma_distinct_within(strings_view(visited@), u);
            }
            let ghost budget = 2 * (u.len() - visited@.len()) + stack@.len();
            let ghost sv_before = strings_view(stack@);
            let cur = stack.pop().unwrap();
            let ghost cid = cur@;
            proof {
                assert(sv_before[sv_before.len() - 1] == cid);
                assert(strings_view(stack@) =~= sv_before.take(sv_before.len() - 1));
                let vs = strings_view(visited@);
                assert forall|x: Seq<char>|
                    #[trigger] vs.contains(x) && !v0.contains(x) implies reachable(rels, root_id, x) && (item_ids(
                        items,
                    ).contains(x) ==> item_ids(derefs(comp@)).contains(x)) && (x == cid || done.contains(x) || strings_view(
                        stack@,
                    ).contains(x) || !item_ids(items).contains(x)) by {
                    if sv_before.contains(x) && x != cid {
                        let j = choose|j: int| 0 <= j < sv_before.len() && sv_before[j] == x;
                        assert(j < sv_before.len() - 1);
                        assert(strings_view(stack@)[j] == x);
                    }
                }
                assert forall|i: int| 0 <= i < stack@.len() implies strings_view(visited@).contains(
                    #[trigger] strings_view(stack@)[i],
                ) && !v0.contains(strings_view(stack@)[i]) by {
                    assert(strings_view(stack@)[i] == sv_before[i]);
                }
            }
            let mut m: usize = 0;
            while m < self.relationships.len()
                invariant
                    rels == self.relationships@,
                    items == self.items@,
                    u == all_ids(items, rels),
                    v0 == strings_view(ov),
                    root < items.len(),
                    root_id == items[root as int].id@,
                    !v0.contains(root_id),
                    cid == cur@,
                    strings_view(visited@).contains(cid),
                    !v0.contains(cid),
                    reachable(rels, root_id, cid),
                    visited@.len() >= ov.len(),
                    forall|i: int| 0 <= i < ov.len() ==> #[trigger] visited@[i] == ov[i],
                    distinct(strings_view(visited@)),
                    forall|i: int| 0 <= i < visited@.len() ==> u.contains(#[trigger] strings_view(visited@)[i]),
                    strings_view(visited@).contains(root_id),
                    derefs(comp@).len() >= 1,
                    derefs(comp@)[0] == items[root as int],
                    forall|j: int|
                        0 <= j < derefs(comp@).len() ==> items.contains(#[trigger] derefs(comp@)[j]) && !v0.contains(
                            derefs(comp@)[j].id@,
                        ) && strings_view(visited@).contains(derefs(comp@)[j].id@) && reachable(
                            rels,
                            root_id,
                            derefs(comp@)[j].id@,
                        ),
                    distinct(item_ids(derefs(comp@))),
                    forall|i: int|
                        0 <= i < stack@.len() ==> strings_view(visited@).contains(#[trigger] strings_view(stack@)[i])
                            && !v0.contains(strings_view(stack@)[i]),
                    forall|x: Seq<char>|
                        #[trigger] strings_view(visited@).contains(x) && !v0.contains(x) ==> reachable(rels, root_id, x)
                            && (item_ids(items).contains(x) ==> item_ids(derefs(comp@)).contains(x)) && (x == cid
                            || done.contains(x) || strings_view(stack@).contains(x) || !item_ids(items).contains(x)),
                    forall|x: Seq<char>| #[trigger] done.contains(x) ==> strings_view(visited@).contains(x) && !v0.contains(x),
                    forall|x: Seq<char>, mm: int|
                        #![trigger done.contains(x), other_end(rels[mm], x)]
                        done.contains(x) && 0 <= mm < rels.len() && other_end(rels[mm], x) is Some ==> strings_view(
                            visited@,
                        ).contains(other_end(rels[mm], x)->0),
                    forall|mm: int|
                        0 <= mm < m && (#[trigger] other_end(rels[mm], cid)) is Some ==> strings_view(visited@).contains(
                            other_end(rels[mm], cid)->0,
                        ),
                    2 * (u.len() - visited@.len()) + stack@.len() <= budget - 1,
                    visited@.len() <= u.len(),
                decreases rels.len() - m,
            {
                match self.relationships[m].get_other_item_id(cur.as_str()) {
                    Some(o) => {
                        if !seen(visited, o.as_str()) {
                            let ghost vb = strings_view(visited@);
                            let ghost cb = derefs(comp@);
                            let ghost sb = strings_view(stack@);
                            proof {
                                lemma_reach_step(rels, root_id, cid, m as int, o@);
                                lemma_all_ids(items, rels, m as int, -1);
                                assert(u.contains(o@));
                            }
                            visited.push(o.clone());
                            proof {
                                assert(strings_view(visited@) =~= vb.push(o@));
                                assert(strings_view(visited@)[vb.len() as int] == o@);
                                lemma_distinct_within(strings_view(visited@), u);
                                let vn = strings_view(visited@);
                                assert forall|z: Seq<char>| vb.contains(z) implies #[trigger] vn.contains(z) by {
                                    lemma_contains_push(vb, z, o@);
                                }
                            }
                            proof {
                                assert(!v0.contains(o@)) by {
                                    if v0.contains(o@) {
                                        let i = choose|i: int| 0 <= i < v0.len() && v0[i] == o@;
                                        assert(visited@[i] == ov[i]);
                                        assert(vb[i] == o@);
                                    }
                                }
                            }
                            match self.get_item(o.as_str()) {
                                Some(it) => {
                                    comp.push(it);
                                    stack.push(o.clone());
                                    proof {
                                        let i = choose|i: int| #[trigger] crate::item::first_at(self.ids(), o@, i) && *it == items[i];
                                        assert(items[i] == *it);
                                        assert(items.contains(*it));
                                        assert(self.ids()[i] == it.id@);
                                        let cn = derefs(comp@);
                                        assert forall|j: int| 0 <= j < cn.len() implies items.contains(#[trigger] cn[j]) && !v0.contains(
                                            cn[j].id@,
                                        ) && strings_view(visited@).contains(cn[j].id@) && reachable(rels, root_id, cn[j].id@) by {
                                            if j < cb.len() {
                                                assert(cn[j] == cb[j]);
                                            } else {
                                                assert(cn[j] == *it);
                                            }
                                        }
                                        let sn = strings_view(stack@);
                                        assert forall|k: int| 0 <= k < stack@.len() implies strings_view(visited@).contains(
                                            #[trigger] strings_view(stack@)[k],
                                        ) && !v0.contains(strings_view(stack@)[k]) by {
                                            if k < sb.len() {
                                                assert(sn[k] == sb[k]);
                                            } else {
                                                assert(sn[k] == o@);
                                            }
                                        }
                                        assert(derefs(comp@) =~= cb.push(*it));
                                        assert(item_ids(derefs(comp@)) =~= item_ids(cb).push(o@));
                                        assert(strings_view(stack@) =~= sb.push(o@));
                                        assert forall|j: int| 0 <= j < item_ids(cb).len() implies item_ids(cb)[j] != o@ by {
                                            assert(item_ids(cb)[j] == cb[j].id@);
                                            assert(vb.contains(cb[j].id@));
                                        }
                                    }
                                },
                                None => {},
                            }
                            proof {
                                let vn = strings_view(visited@);
                                assert forall|x: Seq<char>|
                                    #[trigger] vn.contains(x) && !v0.contains(x) implies reachable(rels, root_id, x)
                                        && (item_ids(items).contains(x) ==> item_ids(derefs(comp@)).contains(x)) && (x == cid
                                        || done.contains(x) || strings_view(stack@).contains(x) || !item_ids(items).contains(x)) by {
                                    if x != o@ {
                                        let i = choose|i: int| 0 <= i < vn.len() && vn[i] == x;
                                        assert(i < vb.len());
                                        assert(vb[i] == x);
                                        assert(vb.contains(x));
                                        if item_ids(items).contains(x) {
                                            assert(item_ids(cb).contains(x));
                                            let j = choose|j: int| 0 <= j < item_ids(cb).len() && item_ids(cb)[j] == x;
                                            assert(item_ids(derefs(comp@))[j] == x);
                                        }
                                        if sb.contains(x) {
                                            let j = choose|j: int| 0 <= j < sb.len() && sb[j] == x;
                                            assert(strings_view(stack@)[j] == x);
                                        }
                                    } else {
                                        if item_ids(items).contains(x) {
                                            assert(item_ids(derefs(comp@))[cb.len() as int] == x);
                                            assert(strings_view(stack@)[sb.len() as int] == x);
                                        }
                                    }
                                }
                                assert forall|i: int| 0 <= i < ov.len() implies #[trigger] visited@[i] == ov[i] by {
                                    assert(visited@[i] == visited@.drop_last()[i]);
                                }
                            }
                        }
                    },
                    None => {},
                }
                m = m + 1;
            }
            let ghost dprev = done;
            proof {
                done = done.push(cid);
                assert(done[done.len() - 1] == cid);
                assert forall|z: Seq<char>| dprev.contains(z) implies #[trigger] done.contains(z) by {
                    let j = choose|j: int| 0 <= j < dprev.len() && dprev[j] == z;
                    assert(done[j] == z);
                }
                assert forall|x: Seq<char>, mm: int|
                    #![trigger done.contains(x), other_end(rels[mm], x)]
                    done.contains(x) && 0 <= mm < rels.len() && other_end(rels[mm], x) is Some implies strings_view(
                        visited@,
                    ).contains(other_end(rels[mm], x)->0) by {
                    if x != cid {
                        let j = choose|j: int| 0 <= j < done.len() && done[j] == x;
                        assert(dprev[j] == x);
                        assert(dprev.contains(x));
                    } else {
                        assert(other_end(rels[mm], cid) is Some);
                    }
                }
                assert forall|x: Seq<char>| #[trigger] done.contains(x) implies strings_view(visited@).contains(x) && !v0.contains(x) by {
                    if x != cid {
                        let j = choose|j: int| 0 <= j < done.len() && done[j] == x;
                        assert(dprev[j] == x);
                        assert(dprev.contains(x));
                    } else {
                        assert(strings_view(visited@).contains(cid));
                    }
                }
                assert(done[done.len() - 1] == cid);
            }
        }
        proof {
            let vf = strings_view(visited@);
            if closed_at_items(items, rels, v0) {
                assert forall|x: Seq<char>, mm: int|
                    #![trigger vf.contains(x), other_end(rels[mm], x)]
                    vf.contains(x) && item_ids(items).contains(x) && 0 <= mm < rels.len() && other_end(rels[mm], x) is Some
                        implies vf.contains(other_end(rels[mm], x)->0) by {
                    if v0.contains(x) {
                        let y = other_end(rels[mm], x)->0;
                        assert(v0.contains(y));
                        let i = choose|i: int| 0 <= i < v0.len() && v0[i] == y;
                        assert(vf[i] == v0[i]);
                    } else {
                        assert(done.contains(x));
                    }
                }
            }
        }
        comp
    }
}

/// The `i`-th component starts at the `k`-th item, and every earlier item lies in an
/// earlier component.
pub open spec fn root_at(cs: Seq<Seq<SemanticItem>>, i: int, items: Seq<SemanticItem>, k: int) -> bool {
    &&& 0 <= k < items.len()
    &&& cs[i][0] == items[k]
    &&& forall|k2: int| 0 <= k2 < k ==> covered(cs, i, #[trigger] items[k2].id@)
}

/// No id occurs twice over all the components.
pub open spec fn ids_apart(cs: Seq<Seq<SemanticItem>>) -> bool {
    forall|a: int, b: int, c: int, d: int|
        0 <= a < cs.len() && 0 <= b < cs[a].len() && 0 <= c < cs.len() && 0 <= d < cs[c].len() && (a != c || b != d)
            ==> #[trigger] cs[a][b].id@ != #[trigger] cs[c][d].id@
}

/// Adding a component keeps what earlier components cover.
pub proof fn lemma_covered_push(cs: Seq<Seq<SemanticItem>>, c: Seq<SemanticItem>, i: int, j: int, x: Seq<char>)
    requires
        covered(cs, i, x),
        i <= j <= cs.len() + 1,
        i <= cs.len(),
    ensures
        covered(cs.push(c), j, x),
{
    let (a, b) = choose|a: int, b: int| 0 <= a < i && 0 <= b < cs[a].len() && #[trigger] cs[a][b].id@ == x;
    assert(cs.push(c)[a] == cs[a]);
    assert(cs.push(c)[a][b].id@ == x);
}

impl SemanticMemory {
    /// The connected components of the graph, each found by depth-first search from
    /// its first item and listed with that item first; the components come in the
    /// order of their first items, and an id already met is not met again. The search
    /// goes on only from items' ids, so a component holds every item reached by a walk
    /// through items; in a well-formed memory that is every item reached at all.
    #[verifier::rlimit(60)]
    pub fn get_connectivity_components(&self) -> (r: Vec<Vec<&SemanticItem>>)
        ensures
            forall|i: int|
                #![trigger components_view(r@)[i]]
                0 <= i < components_view(r@).len() ==> components_view(r@)[i].len() >= 1 && exists|k: int|
                    #[trigger] root_at(components_view(r@), i, self.items@, k),
            forall|i: int, b: int|
                0 <= i < components_view(r@).len() && 0 <= b < components_view(r@)[i].len() ==> self.items@.contains(
                    #[trigger] components_view(r@)[i][b],
                ) && reachable(self.relationships@, components_view(r@)[i][0].id@, components_view(r@)[i][b].id@),
            ids_apart(components_view(r@)),
            forall|k: int| 0 <= k < self.items@.len() ==> covered(components_view(r@), components_view(r@).len() as int, #[trigger] self.items@[k].id@),
            forall|i: int, k: int|
                0 <= i < components_view(r@).len() && 0 <= k < self.items@.len() && item_reachable(
                    self.items@,
                    self.relationships@,
                    components_view(r@)[i][0].id@,
                    #[trigger] self.items@[k].id@,
                ) ==> item_ids(#[trigger] components_view(r@)[i]).contains(self.items@[k].id@),
            self.well_formed() ==> forall|i: int, k: int|
                0 <= i < components_view(r@).len() && 0 <= k < self.items@.len() && reachable(
                    self.relationships@,
                    components_view(r@)[i][0].id@,
                    #[trigger] self.items@[k].id@,
                ) ==> item_ids(#[trigger] components_view(r@)[i]).contains(self.items@[k].id@),
    {
        let ghost rels = self.relationships@;
        let ghost items = self.items@;
        let ghost u = all_ids(items, rels);
        let mut visited: Vec<String> = Vec::new();
        let mut comps: Vec<Vec<&SemanticItem>> = Vec::new();
        let mut k: usize = 0;
        proof {
            assert(components_view(comps@) =~= Seq::<Seq<SemanticItem>>::empty());
        }
        while k < self.items.len()
            invariant
                rels == self.relationships@,
                items == self.items@,
                u == all_ids(items, rels),
                k <= items.len(),
                distinct(strings_view(visited@)),
                forall|i: int| 0 <= i < visited@.len() ==> u.contains(#[trigger] strings_view(visited@)[i]),
                forall|x: Seq<char>|
                    #[trigger] strings_view(visited@).contains(x) && item_ids(items).contains(x) ==> covered(
                        components_view(comps@),
                        components_view(comps@).len() as int,
                        x,
                    ),
                forall|a: int, b: int|
                    0 <= a < components_view(comps@).len() && 0 <= b < components_view(comps@)[a].len() ==> strings_view(
                        visited@,
                    ).contains(#[trigger] components_view(comps@)[a][b].id@),
                forall|k2: int| 0 <= k2 < k ==> strings_view(visited@).contains(#[trigger] items[k2].id@),
                closed_at_items(items, rels, strings_view(visited@)),
                forall|i: int|
                    #![trigger components_view(comps@)[i]]
                    0 <= i < components_view(comps@).len() ==> components_view(comps@)[i].len() >= 1 && exists|kk: int|
                        #[trigger] root_at(components_view(comps@), i, items, kk),
                forall|i: int, b: int|
                    0 <= i < components_view(comps@).len() && 0 <= b < components_view(comps@)[i].len() ==> items.contains(
                        #[trigger] components_view(comps@)[i][b],
                    ) && reachable(rels, components_view(comps@)[i][0].id@, components_view(comps@)[i][b].id@),
                ids_apart(components_view(comps@)),
                forall|i: int, kk: int|
                    0 <= i < components_view(comps@).len() && 0 <= kk < items.len() && item_reachable(
                        items,
                        rels,
                        components_view(comps@)[i][0].id@,
                        #[trigger] items[kk].id@,
                    ) ==> item_ids(#[trigger] components_view(comps@)[i]).contains(items[kk].id@),
            decreases items.len() - k,
        {
            let ghost vb = strings_view(visited@);
            let ghost ovis = visited@;
            let ghost cs = components_view(comps@);
            if !seen(&visited, self.items[k].id.as_str()) {
                let comp = self.explore_component(k, &mut visited);
                let ghost c = derefs(comp@);
                let ghost vn = strings_view(visited@);
                let ghost root_id = items[k as int].id@;
                comps.push(comp);
                proof {
                    let cs2 = components_view(comps@);
                    assert(cs2 =~= cs.push(c));
                    let n = cs.len() as int;
                    assert(cs2[n] == c);
                    assert forall|a: int| 0 <= a < n implies #[trigger] cs2[a] == cs[a] by {}
                    assert forall|z: Seq<char>| vb.contains(z) implies #[trigger] vn.contains(z) by {
                        let i = choose|i: int| 0 <= i < vb.len() && vb[i] == z;
                        assert(visited@[i] == ovis[i]);
                        assert(vn[i] == z);
                    }
                    // what the visited ids cover
                    assert forall|x: Seq<char>|
                        #[trigger] vn.contains(x) && item_ids(items).contains(x) implies covered(cs2, cs2.len() as int, x) by {
                        if vb.contains(x) {
                            lemma_covered_push(cs, c, n, n + 1, x);
                        } else {
                            assert(item_ids(c).contains(x));
                            let b = choose|b: int| 0 <= b < item_ids(c).len() && item_ids(c)[b] == x;
                            assert(cs2[n][b].id@ == x);
                        }
                    }
                    assert forall|a: int, b: int|
                        0 <= a < cs2.len() && 0 <= b < cs2[a].len() implies vn.contains(#[trigger] cs2[a][b].id@) by {
                        if a < n {
                            assert(cs2[a][b] == cs[a][b]);
                        } else {
                            assert(cs2[a][b] == c[b]);
                        }
                    }
                    assert forall|k2: int| 0 <= k2 < k + 1 implies vn.contains(#[trigger] items[k2].id@) by {
                        if k2 < k {
                            assert(vb.contains(items[k2].id@));
                        } else {
                            assert(c[0] == items[k as int]);
                            assert(vn.contains(c[0].id@));
                        }
                    }
                    // roots
                    assert forall|i: int|
                        #![trigger cs2[i]]
                        0 <= i < cs2.len() implies cs2[i].len() >= 1 && exists|kk: int| #[trigger] root_at(cs2, i, items, kk) by {
                        if i < n {
                            assert(cs[i].len() >= 1);
                            let kk = choose|kk: int| #[trigger] root_at(cs, i, items, kk);
                            assert forall|k2: int| 0 <= k2 < kk implies covered(cs2, i, #[trigger] items[k2].id@) by {
                                lemma_covered_push(cs, c, i, i, items[k2].id@);
                            }
                            assert(root_at(cs2, i, items, kk));
                        } else {
                            assert forall|k2: int| 0 <= k2 < k implies covered(cs2, i, #[trigger] items[k2].id@) by {
                                assert(vb.contains(items[k2].id@));
                                assert(item_ids(items)[k2] == items[k2].id@);
                                lemma_covered_push(cs, c, n, n, items[k2].id@);
                            }
                            assert(root_at(cs2, i, items, k as int));
                        }
                    }
                    assert forall|i: int, b: int|
                        0 <= i < cs2.len() && 0 <= b < cs2[i].len() implies items.contains(#[trigger] cs2[i][b]) && reachable(
                            rels,
                            cs2[i][0].id@,
                            cs2[i][b].id@,
                        ) by {
                        if i < n {
                            assert(cs2[i] == cs[i]);
                        }
                    }
                    assert forall|a: int, b: int, cc: int, d: int|
                        0 <= a < cs2.len() && 0 <= b < cs2[a].len() && 0 <= cc < cs2.len() && 0 <= d < cs2[cc].len() && (a
                            != cc || b != d) implies #[trigger] cs2[a][b].id@ != #[trigger] cs2[cc][d].id@ by {
                        if a < n && cc < n {
                            assert(cs2[a][b] == cs[a][b]);
                            assert(cs2[cc][d] == cs[cc][d]);
                        } else if a == n && cc == n {
                            assert(item_ids(c)[b] == c[b].id@);
                            assert(item_ids(c)[d] == c[d].id@);
                        } else if a == n {
                            assert(cs2[cc][d] == cs[cc][d]);
                            assert(vb.contains(cs[cc][d].id@));
                        } else {
                            assert(cs2[a][b] == cs[a][b]);
                            assert(vb.contains(cs[a][b].id@));
                        }
                    }
                    assert forall|i: int, kk: int|
                        0 <= i < cs2.len() && 0 <= kk < items.len() && item_reachable(items, rels, cs2[i][0].id@, #[trigger] items[kk].id@)
                            implies item_ids(#[trigger] cs2[i]).contains(items[kk].id@) by {
                        if i < n {
                            assert(cs2[i] == cs[i]);
                        } else {
                            let y = items[kk].id@;
                            assert(cs2[i][0].id@ == root_id);
                            let p = choose|p: Seq<SemanticRelationship>| #[trigger] is_walk(rels, p, root_id, y) && through_items(items, p, root_id);
                            assert(c[0].id@ == root_id);
                            assert(vn.contains(root_id));
                            assert(!vb.contains(root_id));
                            lemma_items_closed_reach(items, rels, vn, p, root_id, y);
                            lemma_items_closed_avoid(items, rels, vb, p, root_id, y);
                            assert(item_ids(items)[kk] == y);
                        }
                    }
                }
            }
            k = k + 1;
        }
        proof {
            let cs = components_view(comps@);
            assert forall|kk: int| 0 <= kk < items.len() implies covered(cs, cs.len() as int, #[trigger] items[kk].id@) by {
                assert(strings_view(visited@).contains(items[kk].id@));
                assert(item_ids(items)[kk] == items[kk].id@);
            }
            if self.well_formed() {
                assert forall|i: int, kk: int|
                    0 <= i < cs.len() && 0 <= kk < items.len() && reachable(rels, cs[i][0].id@, #[trigger] items[kk].id@)
                        implies item_ids(#[trigger] cs[i]).contains(items[kk].id@) by {
                    let a = cs[i][0].id@;
                    let p = choose|p: Seq<SemanticRelationship>| #[trigger] is_walk(rels, p, a, items[kk].id@);
                    assert(cs[i].len() >= 1);
                    assert(items.contains(cs[i][0]));
                    let j = choose|j: int| 0 <= j < items.len() && items[j] == cs[i][0];
                    assert(item_ids(items)[j] == a);
                    lemma_walk_through_items(items, rels, p, a, items[kk].id@);
                    assert(item_reachable(items, rels, a, items[kk].id@));
                }
            }
        }
        comps
    }
}

} // verus!
