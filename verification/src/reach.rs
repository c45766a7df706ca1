//! The items within a number of steps of an id, and whether the graph is connected.

use vstd::prelude::*;
use crate::components::{closed, distinct, lemma_closed_reach, lemma_contains_push, lemma_reach_self, lemma_walk_ends_at_item};
use crate::graph::{follow, id_universe, is_walk, lemma_distinct_within, lemma_follow_push, reachable};
use crate::item::{derefs, first_at, strings_view, SemanticItem};
use crate::memory::{item_ids, well_formed_parts, SemanticMemory};
use crate::relationship::{other_end, SemanticRelationship};
use crate::text::{owned, str_eq};

verus! {

/// A walk of exactly `n` steps leads from `a` to `x`.
pub open spec fn reach_in(rels: Seq<SemanticRelationship>, a: Seq<char>, x: Seq<char>, n: int) -> bool {
    exists|p: Seq<SemanticRelationship>| #[trigger] is_walk(rels, p, a, x) && p.len() == n
}

/// A walk of at most `n` steps leads from `a` to `x`.
pub open spec fn reach_within(rels: Seq<SemanticRelationship>, a: Seq<char>, x: Seq<char>, n: int) -> bool {
    exists|p: Seq<SemanticRelationship>| #[trigger] is_walk(rels, p, a, x) && p.len() <= n
}

/// The ids of the pending entries.
pub open spec fn entry_ids(st: Seq<(String, usize)>) -> Seq<Seq<char>> {
    st.map_values(|e: (String, usize)| e.0@)
}

/// Each pending entry lies in `u`, is at most `bound` and `vlen` steps deep, and is
/// reached from `a` by a walk of its own depth.
pub open spec fn pending_ok(
    rels: Seq<SemanticRelationship>,
    a: Seq<char>,
    u: Seq<Seq<char>>,
    st: Seq<(String, usize)>,
    bound: int,
    vlen: int,
) -> bool {
    forall|i: int|
        0 <= i < st.len() ==> u.contains(#[trigger] entry_ids(st)[i]) && st[i].1 <= bound && st[i].1 <= vlen && reach_in(
            rels,
            a,
            entry_ids(st)[i],
            st[i].1 as int,
        )
}

/// Every neighbour of a visited id is visited or pending.
pub open spec fn closed_or_pending(rels: Seq<SemanticRelationship>, v: Seq<Seq<char>>, st: Seq<Seq<char>>) -> bool {
    forall|x: Seq<char>, m: int|
        #![trigger v.contains(x), other_end(rels[m], x)]
        v.contains(x) && 0 <= m < rels.len() && other_end(rels[m], x) is Some ==> v.contains(other_end(rels[m], x)->0)
            || st.contains(other_end(rels[m], x)->0)
}

/// Some relationship leads from `a` straight to `b`.
pub open spec fn adjacent(rels: Seq<SemanticRelationship>, a: Seq<char>, b: Seq<char>) -> bool {
    exists|m: int| 0 <= m < rels.len() && #[trigger] other_end(rels[m], a) == Some(b)
}

/// Every neighbour of `a` is visited or pending.
pub open spec fn neighbours_met(rels: Seq<SemanticRelationship>, a: Seq<char>, v: Seq<Seq<char>>, st: Seq<Seq<char>>) -> bool {
    forall|m: int|
        0 <= m < rels.len() && (#[trigger] other_end(rels[m], a)) is Some ==> v.contains(other_end(rels[m], a)->0)
            || st.contains(other_end(rels[m], a)->0)
}

/// Taking the last pending entry `cur` off and visiting it keeps every neighbour
/// of `a` visited or pending, when the rest of the pending entries stay first.
pub proof fn lemma_neighbours_met_step(
    rels: Seq<SemanticRelationship>,
    a: Seq<char>,
    vb: Seq<Seq<char>>,
    vn: Seq<Seq<char>>,
    es: Seq<Seq<char>>,
    en: Seq<Seq<char>>,
    cur: Seq<char>,
)
    requires
        neighbours_met(rels, a, vb, es),
        es.len() > 0,
        es.last() == cur,
        vn.contains(cur),
        forall|z: Seq<char>| #[trigger] vb.contains(z) ==> vn.contains(z),
        en.len() >= es.len() - 1,
        forall|i: int| 0 <= i < es.len() - 1 ==> en[i] == #[trigger] es[i],
    ensures
        neighbours_met(rels, a, vn, en),
{
    assert forall|m: int|
        0 <= m < rels.len() && (#[trigger] other_end(rels[m], a)) is Some implies vn.contains(other_end(rels[m], a)->0)
            || en.contains(other_end(rels[m], a)->0) by {
        let y = other_end(rels[m], a)->0;
        if vb.contains(y) {
        } else {
            let i = choose|i: int| 0 <= i < es.len() && es[i] == y;
            if i < es.len() - 1 {
                assert(en[i] == y);
            }
        }
    }
}

/// One more step along a walk of `n` steps.
pub proof fn lemma_reach_in_step(rels: Seq<SemanticRelationship>, a: Seq<char>, x: Seq<char>, n: int, m: int, y: Seq<char>)
    requires
        reach_in(rels, a, x, n),
        0 <= m < rels.len(),
        other_end(rels[m], x) == Some(y),
    ensures
        reach_in(rels, a, y, n + 1),
{
    let p = choose|p: Seq<SemanticRelationship>| #[trigger] is_walk(rels, p, a, x) && p.len() == n;
    lemma_follow_push(p, rels[m], a);
    let q = p.push(rels[m]);
    assert forall|i: int| 0 <= i < q.len() implies rels.contains(#[trigger] q[i]) by {
        if i < p.len() {
            assert(q[i] == p[i]);
        }
    }
    assert(is_walk(rels, q, a, y));
}

/// Each relationship end lies in the universe of ids.
pub proof fn lemma_universe_ends(rels: Seq<SemanticRelationship>, a: Seq<char>, m: int)
    requires
        0 <= m < rels.len(),
    ensures
        id_universe(rels, a).contains(rels[m].source_id@),
        id_universe(rels, a).contains(rels[m].target_id@),
{
    let u = id_universe(rels, a);
    let srcs = rels.map_values(|r: SemanticRelationship| r.source_id@);
    let tgts = rels.map_values(|r: SemanticRelationship| r.target_id@);
    assert(u[1 + m] == srcs[m]);
    assert(u[1 + rels.len() + m] == tgts[m]);
}

/// Whether `x` is among the visited ids.
fn visited_has(v: &Vec<String>, x: &str) -> (r: bool)
    ensures
        r == strings_view(v@).contains(x@),
{
    let mut i: usize = 0;
    while i < v.len()
        invariant
            i <= v@.len(),
            forall|j: int| 0 <= j < i ==> (#[trigger] v@[j])@ != x@,
        decreases v.len() - i,
    {
        if str_eq(v[i].as_str(), x) {
            assert(strings_view(v@)[i as int] == x@);
            return true;
        }
        i = i + 1;
    }
    assert forall|j: int| 0 <= j < strings_view(v@).len() implies strings_view(v@)[j] != x@ by {
        assert(strings_view(v@)[j] == v@[j]@);
    }
    false
}

/// Queues, one step further, every neighbour of `cur` that is not visited.
fn queue_neighbours(
    rels: &Vec<SemanticRelationship>,
    cur: &String,
    next: usize,
    visited: &Vec<String>,
    stack: &mut Vec<(String, usize)>,
    Ghost(start): Ghost<Seq<char>>,
)
    requires
        next >= 1,
        reach_in(rels@, start, cur@, next - 1),
    ensures
        final(stack)@.len() >= old(stack)@.len(),
        forall|i: int| 0 <= i < old(stack)@.len() ==> #[trigger] final(stack)@[i] == old(stack)@[i],
        forall|i: int|
            old(stack)@.len() <= i < final(stack)@.len() ==> (#[trigger] final(stack)@[i]).1 == next && reach_in(
                rels@,
                start,
                final(stack)@[i].0@,
                next as int,
            ) && id_universe(rels@, start).contains(final(stack)@[i].0@),
        forall|m: int|
            0 <= m < rels@.len() && (#[trigger] other_end(rels@[m], cur@)) is Some ==> strings_view(visited@).contains(
                other_end(rels@[m], cur@)->0,
            ) || entry_ids(final(stack)@).contains(other_end(rels@[m], cur@)->0),
{
    let ghost st0 = stack@;
    let mut m: usize = 0;
    while m < rels.len()
        invariant
            next >= 1,
            reach_in(rels@, start, cur@, next - 1),
            stack@.len() >= st0.len(),
            forall|i: int| 0 <= i < st0.len() ==> #[trigger] stack@[i] == st0[i],
            forall|i: int|
                st0.len() <= i < stack@.len() ==> (#[trigger] stack@[i]).1 == next && reach_in(
                    rels@,
                    start,
                    stack@[i].0@,
                    next as int,
                ) && id_universe(rels@, start).contains(stack@[i].0@),
            forall|mm: int|
                0 <= mm < m && (#[trigger] other_end(rels@[mm], cur@)) is Some ==> strings_view(visited@).contains(
                    other_end(rels@[mm], cur@)->0,
                ) || entry_ids(stack@).contains(other_end(rels@[mm], cur@)->0),
        decreases rels@.len() - m,
    {
        match rels[m].get_other_item_id(cur.as_str()) {
            Some(o) => {
                if !visited_has(visited, o.as_str()) {
                    let ghost sb = stack@;
                    proof {
                        lemma_reach_in_step(rels@, start, cur@, next - 1, m as int, o@);
                        lemma_universe_ends(rels@, start, m as int);
                    }
                    stack.push((o.clone(), next));
                    proof {
                        assert(entry_ids(stack@) =~= entry_ids(sb).push(o@));
                        assert(entry_ids(stack@)[sb.len() as int] == o@);
                        assert forall|z: Seq<char>| entry_ids(sb).contains(z) implies #[trigger] entry_ids(stack@).contains(z) by {
                            lemma_contains_push(entry_ids(sb), z, o@);
                        }
                    }
                }
            },
            None => {},
        }
        m = m + 1;
    }
}

impl SemanticMemory {
    /// The items met by a depth-first search from `start_item_id` that follows
    /// relationships in both directions and goes at most `max_depth` steps deep; the
    /// start itself is left out. Each item is at most `max_depth` steps away; with
    /// `max_depth` at least 1 every item next to the start is met, and every item
    /// reachable from the start is met when `max_depth` is above twice the number of
    /// relationships, or, in a well-formed memory, above the number of items.
    #[verifier::rlimit(80)]
    #[verifier::spinoff_prover]
    pub fn find_connected_items(&self, start_item_id: &str, max_depth: usize) -> (r: Vec<&SemanticItem>)
        ensures
            forall|j: int|
                0 <= j < derefs(r@).len() ==> self.items@.contains(#[trigger] derefs(r@)[j]) && derefs(r@)[j].id@
                    != start_item_id@ && reach_within(self.relationships@, start_item_id@, derefs(r@)[j].id@, max_depth as int),
            distinct(item_ids(derefs(r@))),
            max_depth >= 1 ==> forall|k: int|
                0 <= k < self.items@.len() && self.items@[k].id@ != start_item_id@ && adjacent(
                    self.relationships@,
                    start_item_id@,
                    #[trigger] self.items@[k].id@,
                ) ==> item_ids(derefs(r@)).contains(self.items@[k].id@),
            (self.well_formed() && max_depth > self.items@.len()) || max_depth > 2 * self.relationships@.len() ==> forall|k: int|
                0 <= k < self.items@.len() && self.items@[k].id@ != start_item_id@ && reachable(
                    self.relationships@,
                    start_item_id@,
                    #[trigger] self.items@[k].id@,
                ) ==> item_ids(derefs(r@)).contains(self.items@[k].id@),
    {
        let ghost rels = self.relationships@;
        let ghost items = self.items@;
        let ghost start = start_item_id@;
        let ghost u = id_universe(rels, start);
        let ghost cond = well_formed_parts(items, rels) && max_depth > items.len();
        let ghost full = cond || max_depth > 2 * rels.len();
        let mut visited: Vec<String> = Vec::new();
        let mut stack: Vec<(String, usize)> = Vec::new();
        let mut result: Vec<&SemanticItem> = Vec::new();
        stack.push((owned(start_item_id), 0));
        proof {
            lemma_reach_self(rels, start);
            assert(is_walk(rels, Seq::empty(), start, start));
            assert(reach_in(rels, start, start, 0));
            assert(u[0] == start);
            assert(entry_ids(stack@)[0] == start);
        }
        while stack.len() > 0
            invariant
                rels == self.relationships@,
                items == self.items@,
                start == start_item_id@,
                u == id_universe(rels, start),
                cond == (well_formed_parts(items, rels) && max_depth > items.len()),
                full == (cond || max_depth > 2 * rels.len()),
                distinct(strings_view(visited@)),
                forall|i: int| 0 <= i < visited@.len() ==> u.contains(#[trigger] strings_view(visited@)[i]),
                pending_ok(rels, start, u, stack@, max_depth as int, visited@.len() as int),
                forall|x: Seq<char>| #[trigger] strings_view(visited@).contains(x) ==> reach_within(rels, start, x, max_depth as int),
                forall|j: int|
                    0 <= j < derefs(result@).len() ==> items.contains(#[trigger] derefs(result@)[j]) && derefs(result@)[j].id@
                        != start && reach_within(rels, start, derefs(result@)[j].id@, max_depth as int) && strings_view(
                        visited@,
                    ).contains(derefs(result@)[j].id@),
                distinct(item_ids(derefs(result@))),
                forall|x: Seq<char>|
                    #[trigger] strings_view(visited@).contains(x) && x != start && item_ids(items).contains(x) ==> item_ids(
                        derefs(result@),
                    ).contains(x),
                full ==> closed_or_pending(rels, strings_view(visited@), entry_ids(stack@)),
                cond ==> forall|x: Seq<char>| #[trigger] strings_view(visited@).contains(x) ==> x == start || item_ids(items).contains(x),
                visited@.len() == 0 ==> stack@.len() == 1 && entry_ids(stack@)[0] == start && stack@[0].1 == 0,
                visited@.len() > 0 ==> strings_view(visited@).contains(start),
                max_depth >= 1 && visited@.len() > 0 ==> neighbours_met(rels, start, strings_view(visited@), entry_ids(stack@)),
            decreases u.len() - visited@.len(), stack@.len(),
        {
            proof {
                lemma_distinct_within(strings_view(visited@), u);
            }
            let ghost vb = strings_view(visited@);
            let ghost sb = stack@;
            let ghost rb = derefs(result@);
            let (cur, depth) = stack.pop().unwrap();
            proof {
                assert(stack@ =~= sb.take(sb.len() - 1));
                assert(entry_ids(sb)[sb.len() - 1] == cur@);
                assert forall|i: int| 0 <= i < stack@.len() implies #[trigger] entry_ids(stack@)[i] == entry_ids(sb)[i] by {}
            }
            if visited_has(&visited, cur.as_str()) || depth > max_depth {
                proof {
                    assert(pending_ok(rels, start, u, stack@, max_depth as int, visited@.len() as int)) by {
                        assert forall|i: int| 0 <= i < stack@.len() implies u.contains(#[trigger] entry_ids(stack@)[i]) && stack@[i].1
                            <= max_depth && stack@[i].1 <= visited@.len() && reach_in(rels, start, entry_ids(stack@)[i], stack@[i].1 as int) by {
                            assert(stack@[i] == sb[i]);
                            assert(entry_ids(stack@)[i] == entry_ids(sb)[i]);
                        }
                    }
                    assert(max_depth >= 1 && vb.len() > 0 ==> neighbours_met(rels, start, vb, entry_ids(stack@))) by {
                        if max_depth >= 1 && vb.len() > 0 {
                            assert(vb.contains(cur@));
                            assert(entry_ids(stack@) =~= entry_ids(sb).drop_last());
                            lemma_neighbours_met_step(rels, start, vb, vb, entry_ids(sb), entry_ids(stack@), cur@);
                        }
                    }
                    if full {
                        assert forall|x: Seq<char>, m: int|
                            #![trigger vb.contains(x), other_end(rels[m], x)]
                            vb.contains(x) && 0 <= m < rels.len() && other_end(rels[m], x) is Some implies vb.contains(
                                other_end(rels[m], x)->0,
                            ) || entry_ids(stack@).contains(other_end(rels[m], x)->0) by {
                            let y = other_end(rels[m], x)->0;
                            if !vb.contains(y) {
                                assert(entry_ids(sb).contains(y));
                                let i = choose|i: int| 0 <= i < entry_ids(sb).len() && entry_ids(sb)[i] == y;
                                if i == sb.len() - 1 {
                                    assert(vb.contains(cur@));
                                } else {
                                    assert(entry_ids(stack@)[i] == y);
                                }
                            }
                        }
                    }
                }
            } else {
                let ghost vnew = vb.push(cur@);
                proof {
                    let p = choose|p: Seq<SemanticRelationship>| #[trigger] is_walk(rels, p, start, cur@) && p.len() == depth;
                    assert(reach_within(rels, start, cur@, max_depth as int));
                    if cond {
                        if p.len() > 0 {
                            lemma_walk_ends_at_item(items, rels, p, start, cur@);
                        }
                        assert forall|k: int| 0 <= k < vnew.len() implies (item_ids(items).push(start)).contains(#[trigger] vnew[k]) by {
                            if k < vb.len() {
                                assert(vb.contains(vb[k]));
                                if vb[k] == start {
                                    assert(item_ids(items).push(start)[items.len() as int] == start);
                                } else {
                                    let i = choose|i: int| 0 <= i < item_ids(items).len() && item_ids(items)[i] == vb[k];
                                    assert(item_ids(items).push(start)[i] == vb[k]);
                                }
                            } else if cur@ == start {
                                assert(item_ids(items).push(start)[items.len() as int] == start);
                            } else {
                                let i = choose|i: int| 0 <= i < item_ids(items).len() && item_ids(items)[i] == cur@;
                                assert(item_ids(items).push(start)[i] == cur@);
                            }
                        }
                        lemma_distinct_within(vnew, item_ids(items).push(start));
                    }
                }
                visited.push(cur.clone());
                proof {
                    assert(strings_view(visited@) =~= vnew);
                    assert(vnew[vb.len() as int] == cur@);
                    assert forall|z: Seq<char>| vb.contains(z) implies #[trigger] vnew.contains(z) by {
                        lemma_contains_push(vb, z, cur@);
                    }
                    lemma_distinct_within(vnew, u);
                }
                match self.get_item(cur.as_str()) {
                    Some(item) => {
                        if !str_eq(cur.as_str(), start_item_id) {
                            result.push(item);
                            proof {
                                let i = choose|i: int| #[trigger] first_at(self.ids(), cur@, i) && *item == items[i];
                                assert(items[i] == *item);
                                assert(self.ids()[i] == item.id@);
                                let rn = derefs(result@);
                                assert(rn =~= rb.push(*item));
                                assert(item_ids(rn) =~= item_ids(rb).push(cur@));
                                assert(item_ids(rn)[rb.len() as int] == cur@);
                                assert forall|j: int| 0 <= j < item_ids(rb).len() implies item_ids(rb)[j] != cur@ by {
                                    assert(item_ids(rb)[j] == rb[j].id@);
                                }
                                assert forall|j: int| 0 <= j < rn.len() implies items.contains(#[trigger] rn[j]) && rn[j].id@
                                    != start && reach_within(rels, start, rn[j].id@, max_depth as int) && vnew.contains(rn[j].id@) by {
                                    if j < rb.len() {
                                        assert(rn[j] == rb[j]);
                                    }
                                }
                            }
                        }
                    },
                    None => {},
                }
                proof {
                    assert(cur@ == start || !item_ids(items).contains(cur@) || item_ids(derefs(result@)).contains(cur@));
                    assert forall|z: Seq<char>| item_ids(rb).contains(z) implies #[trigger] item_ids(derefs(result@)).contains(z) by {
                        if derefs(result@) != rb {
                            lemma_contains_push(item_ids(rb), z, cur@);
                            assert(item_ids(derefs(result@)) =~= item_ids(rb).push(cur@));
                        }
                    }
                    assert forall|x: Seq<char>| #[trigger] vnew.contains(x) implies reach_within(rels, start, x, max_depth as int) by {
                        let k = choose|k: int| 0 <= k < vnew.len() && vnew[k] == x;
                        if k < vb.len() {
                            assert(vb[k] == x);
                            assert(vb.contains(x));
                        }
                    }
                    assert forall|x: Seq<char>|
                        #[trigger] vnew.contains(x) && x != start && item_ids(items).contains(x) implies item_ids(
                            derefs(result@),
                        ).contains(x) by {
                        let k = choose|k: int| 0 <= k < vnew.len() && vnew[k] == x;
                        if k < vb.len() {
                            assert(vb[k] == x);
                            assert(vb.contains(x));
                            assert(item_ids(rb).contains(x));
                        }
                    }
                }
                let ghost sp = stack@;
                if depth < max_depth {
                    queue_neighbours(&self.relationships, &cur, depth + 1, &visited, &mut stack, Ghost(start));
                }
                proof {
                    assert forall|i: int| 0 <= i < stack@.len() implies u.contains(#[trigger] entry_ids(stack@)[i]) && stack@[i].1
                        <= max_depth && stack@[i].1 <= visited@.len() && reach_in(rels, start, entry_ids(stack@)[i], stack@[i].1 as int) by {
                        if i < sp.len() {
                            assert(stack@[i] == sp[i]);
                            assert(entry_ids(stack@)[i] == entry_ids(sp)[i]);
                        }
                    }
                    assert(pending_ok(rels, start, u, stack@, max_depth as int, visited@.len() as int));
                    assert forall|i: int| 0 <= i < sp.len() implies #[trigger] entry_ids(stack@)[i] == entry_ids(sp)[i] by {
                        assert(stack@[i] == sp[i]);
                    }
                    assert(full ==> closed_or_pending(rels, vnew, entry_ids(stack@))) by {
                        if full {
                            assert(depth < max_depth);
                            assert forall|x: Seq<char>, m: int|
                                #![trigger vnew.contains(x), other_end(rels[m], x)]
                                vnew.contains(x) && 0 <= m < rels.len() && other_end(rels[m], x) is Some implies vnew.contains(
                                    other_end(rels[m], x)->0,
                                ) || entry_ids(stack@).contains(other_end(rels[m], x)->0) by {
                                let y = other_end(rels[m], x)->0;
                                if x == cur@ {
                                } else if !vnew.contains(y) {
                                    let k = choose|k: int| 0 <= k < vnew.len() && vnew[k] == x;
                                    assert(vb[k] == x);
                                    assert(vb.contains(x));
                                    assert(entry_ids(sb).contains(y));
                                    let i = choose|i: int| 0 <= i < entry_ids(sb).len() && entry_ids(sb)[i] == y;
                                    assert(i != sb.len() - 1);
                                    assert(entry_ids(stack@)[i] == y);
                                }
                            }
                        }
                    }
                    assert(max_depth >= 1 ==> neighbours_met(rels, start, vnew, entry_ids(stack@))) by {
                        if max_depth >= 1 {
                            if vb.len() == 0 {
                                assert(cur@ == start);
                            } else {
                                assert(entry_ids(sp) =~= entry_ids(sb).drop_last());
                                assert forall|i: int| 0 <= i < entry_ids(sb).len() - 1 implies entry_ids(stack@)[i] == #[trigger] entry_ids(sb)[i] by {
                                    assert(entry_ids(stack@)[i] == entry_ids(sp)[i]);
                                }
                                lemma_neighbours_met_step(rels, start, vb, vnew, entry_ids(sb), entry_ids(stack@), cur@);
                            }
                        }
                    }
                }
            }
        }
        proof {
            let vf = strings_view(visited@);
            if max_depth >= 1 {
                assert forall|k: int|
                    0 <= k < items.len() && items[k].id@ != start && adjacent(rels, start, #[trigger] items[k].id@) implies item_ids(
                        derefs(result@),
                    ).contains(items[k].id@) by {
                    let m = choose|m: int| 0 <= m < rels.len() && #[trigger] other_end(rels[m], start) == Some(items[k].id@);
                    assert(!entry_ids(stack@).contains(items[k].id@));
                    assert(vf.contains(items[k].id@));
                    assert(item_ids(items)[k] == items[k].id@);
                }
            }
            if full {
                assert(closed(rels, vf)) by {
                    assert forall|x: Seq<char>, m: int|
                        #![trigger vf.contains(x), other_end(rels[m], x)]
                        vf.contains(x) && 0 <= m < rels.len() && other_end(rels[m], x) is Some implies vf.contains(
                            other_end(rels[m], x)->0,
                        ) by {
                        assert(!entry_ids(stack@).contains(other_end(rels[m], x)->0));
                    }
                }
                assert forall|k: int|
                    0 <= k < items.len() && items[k].id@ != start && reachable(rels, start, #[trigger] items[k].id@) implies item_ids(
                        derefs(result@),
                    ).contains(items[k].id@) by {
                    let p = choose|p: Seq<SemanticRelationship>| #[trigger] is_walk(rels, p, start, items[k].id@);
                    lemma_closed_reach(rels, vf, p, start, items[k].id@);
                    assert(item_ids(items)[k] == items[k].id@);
                }
            }
        }
        result
    }
}

impl SemanticMemory {
    /// Whether every item can be reached from the first one (true for an empty
    /// memory): the items met from the first item must be all the others. Walks may
    /// pass through ids that no item holds.
    pub fn is_connected(&self) -> (r: bool)
        ensures
            self.items@.len() == 0 ==> r,
            self.well_formed() && 0 < self.items@.len() < usize::MAX ==> (r <==> forall|k: int|
                0 <= k < self.items@.len() ==> reachable(self.relationships@, self.items@[0].id@, #[trigger] self.items@[k].id@)),
            distinct(item_ids(self.items@)) && 0 < self.items@.len() && 2 * self.relationships@.len() < usize::MAX ==> (r
                <==> forall|k: int|
                0 <= k < self.items@.len() ==> reachable(self.relationships@, self.items@[0].id@, #[trigger] self.items@[k].id@)),
    {
        if self.items.len() == 0 {
            return true;
        }
        let found = self.find_connected_items(self.items[0].id.as_str(), usize::MAX);
        let r = found.len() == self.items.len() - 1;
        proof {
            let items = self.items@;
            let rels = self.relationships@;
            let ids = item_ids(items);
            let root = items[0].id@;
            let out = item_ids(derefs(found@));
            let rest = ids.skip(1);
            if (self.well_formed() && items.len() < usize::MAX) || (distinct(ids) && 2 * rels.len() < usize::MAX) {
                assert(distinct(ids)) by {
                    if self.well_formed() {
                        assert forall|i: int, j: int| 0 <= i < j < ids.len() implies ids[i] != ids[j] by {
                            assert(ids[i] == items[i].id@ && ids[j] == items[j].id@);
                        }
                    }
                }
                assert(ids[0] == root);
                assert forall|x: Seq<char>| out.contains(x) implies rest.contains(x) by {
                    let j = choose|j: int| 0 <= j < out.len() && out[j] == x;
                    assert(out[j] == derefs(found@)[j].id@);
                    assert(items.contains(derefs(found@)[j]));
                    let k = choose|k: int| 0 <= k < items.len() && items[k] == derefs(found@)[j];
                    assert(ids[k] == x);
                    assert(k != 0);
                    assert(rest[k - 1] == x);
                }
                assert forall|i: int| 0 <= i < out.len() implies rest.contains(#[trigger] out[i]) by {
                    assert(out.contains(out[i]));
                }
                lemma_distinct_within(out, rest);
                if forall|k: int| 0 <= k < items.len() ==> reachable(rels, root, #[trigger] items[k].id@) {
                    assert forall|i: int| 0 <= i < rest.len() implies out.contains(#[trigger] rest[i]) by {
                        assert(rest[i] == ids[i + 1]);
                        assert(ids[i + 1] == items[i + 1].id@);
                        assert(ids[i + 1] != ids[0]);
                        assert(reachable(rels, root, items[i + 1].id@));
                    }
                    assert(distinct(rest)) by {
                        assert forall|i: int, j: int| 0 <= i < j < rest.len() implies rest[i] != rest[j] by {
                            assert(rest[i] == ids[i + 1] && rest[j] == ids[j + 1]);
                        }
                    }
                    lemma_distinct_within(rest, out);
                    assert(r);
                }
                if r {
                    assert forall|k: int| 0 <= k < items.len() implies reachable(rels, root, #[trigger] items[k].id@) by {
                        if !reachable(rels, root, items[k].id@) {
                            lemma_reach_self(rels, root);
                            assert(k != 0);
                            let y = items[k].id@;
                            let smaller = rest.remove(k - 1);
                            assert(rest[k - 1] == y);
                            assert forall|i: int| 0 <= i < out.len() implies smaller.contains(#[trigger] out[i]) by {
                                assert(out.contains(out[i]));
                                assert(rest.contains(out[i]));
                                let j = choose|j: int| 0 <= j < rest.len() && rest[j] == out[i];
                                assert(out[i] == derefs(found@)[i].id@);
                                let p = choose|p: Seq<SemanticRelationship>| #[trigger] is_walk(rels, p, root, out[i]) && p.len() <= usize::MAX;
                                assert(reachable(rels, root, out[i]));
                                assert(j != k - 1);
                                if j < k - 1 {
                                    assert(smaller[j] == out[i]);
                                } else {
                                    assert(smaller[j - 1] == out[i]);
                                }
                            }
                            lemma_distinct_within(out, smaller);
                            assert(false);
                        }
                    }
                }
            }
        }
        r
    }
}

} // verus!
