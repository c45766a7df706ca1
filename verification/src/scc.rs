//! Strongly connected components: the classes of ids that reach each other along
//! relationships followed from source to target.

use vstd::prelude::*;
use crate::components::{distinct, lemma_contains_push};
use crate::graph::lemma_distinct_within;
use crate::memory::SemanticMemory;
use crate::relationship::SemanticRelationship;
use crate::text::str_eq;

verus! {

/// The id reached from `a` by following the relationships of `p` from source to
/// target; `None` when one of them does not start at the id reached so far.
pub open spec fn follow_out(p: Seq<SemanticRelationship>, a: Seq<char>) -> Option<Seq<char>>
    decreases p.len(),
{
    if p.len() == 0 {
        Some(a)
    } else {
        match follow_out(p.drop_last(), a) {
            Some(y) => if p.last().source_id@ == y {
                Some(p.last().target_id@)
            } else {
                None
            },
            None => None,
        }
    }
}

/// `p` is a directed walk from `a` to `b` through relationships of `rels`.
pub open spec fn is_directed_walk(rels: Seq<SemanticRelationship>, p: Seq<SemanticRelationship>, a: Seq<char>, b: Seq<char>) -> bool {
    follow_out(p, a) == Some(b) && forall|i: int| 0 <= i < p.len() ==> rels.contains(#[trigger] p[i])
}

/// Some directed walk through `rels` leads from `a` to `b`.
pub open spec fn reaches(rels: Seq<SemanticRelationship>, a: Seq<char>, b: Seq<char>) -> bool {
    exists|p: Seq<SemanticRelationship>| #[trigger] is_directed_walk(rels, p, a, b)
}

/// `a` and `b` reach each other.
pub open spec fn mutual(rels: Seq<SemanticRelationship>, a: Seq<char>, b: Seq<char>) -> bool {
    reaches(rels, a, b) && reaches(rels, b, a)
}

/// The id one step from `x` along `r`: forwards from source to target, or backwards
/// from target to source.
pub open spec fn step_from(r: SemanticRelationship, x: Seq<char>, forward: bool) -> Option<Seq<char>> {
    if forward {
        if r.source_id@ == x {
            Some(r.target_id@)
        } else {
            None
        }
    } else {
        if r.target_id@ == x {
            Some(r.source_id@)
        } else {
            None
        }
    }
}

/// `x` is reached from `s` (forwards), or reaches `s` (backwards).
pub open spec fn linked(rels: Seq<SemanticRelationship>, s: Seq<char>, x: Seq<char>, forward: bool) -> bool {
    if forward {
        reaches(rels, s, x)
    } else {
        reaches(rels, x, s)
    }
}

/// Every step from an id of `v` in the given direction stays in `v`.
pub open spec fn closed_in(rels: Seq<SemanticRelationship>, v: Seq<Seq<char>>, forward: bool) -> bool {
    forall|x: Seq<char>, m: int|
        #![trigger v.contains(x), step_from(rels[m], x, forward)]
        v.contains(x) && 0 <= m < rels.len() && step_from(rels[m], x, forward) is Some ==> v.contains(
            step_from(rels[m], x, forward)->0,
        )
}

/// The characters of each referenced string.
pub open spec fn refs_view(v: Seq<&String>) -> Seq<Seq<char>> {
    Seq::new(v.len(), |i: int| (*v[i])@)
}

/// Some seed is linked to `x`.
pub open spec fn seeded(rels: Seq<SemanticRelationship>, seeds: Seq<Seq<char>>, x: Seq<char>, forward: bool) -> bool {
    exists|k: int| 0 <= k < seeds.len() && #[trigger] linked(rels, seeds[k], x, forward)
}

/// Every id that the seeds or a relationship end can be.
pub open spec fn ends_and(rels: Seq<SemanticRelationship>, seeds: Seq<Seq<char>>) -> Seq<Seq<char>> {
    seeds + rels.map_values(|r: SemanticRelationship| r.source_id@) + rels.map_values(|r: SemanticRelationship| r.target_id@)
}

/// Following one more relationship at the end of a directed walk.
pub proof fn lemma_follow_out_push(p: Seq<SemanticRelationship>, r: SemanticRelationship, a: Seq<char>)
    ensures
        follow_out(p.push(r), a) == (match follow_out(p, a) {
            Some(y) => if r.source_id@ == y {
                Some(r.target_id@)
            } else {
                None
            },
            None => None,
        }),
{
    assert(p.push(r).drop_last() =~= p);
}

/// A relationship in front of a directed walk.
pub proof fn lemma_follow_out_prepend(r: SemanticRelationship, q: Seq<SemanticRelationship>, b: Seq<char>)
    requires
        follow_out(q, r.target_id@) == Some(b),
    ensures
        follow_out(seq![r] + q, r.source_id@) == Some(b),
    decreases q.len(),
{
    let w = seq![r] + q;
    if q.len() == 0 {
        assert(w.drop_last() =~= Seq::<SemanticRelationship>::empty());
        assert(follow_out(w.drop_last(), r.source_id@) == Some(r.source_id@));
        assert(w.last() == r);
        assert(b == r.target_id@);
    } else {
        let q2 = q.drop_last();
        let y = follow_out(q2, r.target_id@)->0;
        lemma_follow_out_prepend(r, q2, y);
        assert(w.drop_last() =~= seq![r] + q2);
        assert(w.last() == q.last());
        assert(follow_out(w.drop_last(), r.source_id@) == Some(y));
    }
}

/// Directed walks join end to end.
pub proof fn lemma_reaches_trans(rels: Seq<SemanticRelationship>, a: Seq<char>, b: Seq<char>, c: Seq<char>)
    requires
        reaches(rels, a, b),
        reaches(rels, b, c),
    ensures
        reaches(rels, a, c),
{
    let p = choose|p: Seq<SemanticRelationship>| #[trigger] is_directed_walk(rels, p, a, b);
    let q = choose|q: Seq<SemanticRelationship>| #[trigger] is_directed_walk(rels, q, b, c);
    lemma_follow_out_concat(p, q, a, b, c);
    assert forall|i: int| 0 <= i < (p + q).len() implies rels.contains(#[trigger] (p + q)[i]) by {
        if i < p.len() {
            assert((p + q)[i] == p[i]);
        } else {
            assert((p + q)[i] == q[i - p.len()]);
        }
    }
    assert(is_directed_walk(rels, p + q, a, c));
}

/// Following a directed walk and then another.
pub proof fn lemma_follow_out_concat(p: Seq<SemanticRelationship>, q: Seq<SemanticRelationship>, a: Seq<char>, b: Seq<char>, c: Seq<char>)
    requires
        follow_out(p, a) == Some(b),
        follow_out(q, b) == Some(c),
    ensures
        follow_out(p + q, a) == Some(c),
    decreases q.len(),
{
    if q.len() == 0 {
        assert(p + q =~= p);
    } else {
        let q2 = q.drop_last();
        let y = follow_out(q2, b)->0;
        lemma_follow_out_concat(p, q2, a, b, y);
        assert((p + q).drop_last() =~= p + q2);
        assert((p + q).last() == q.last());
    }
}

/// Every id reaches itself.
pub proof fn lemma_reaches_self(rels: Seq<SemanticRelationship>, a: Seq<char>)
    ensures
        reaches(rels, a, a),
{
    assert(is_directed_walk(rels, Seq::empty(), a, a));
}

/// One more step keeps an id linked to the seed.
pub proof fn lemma_linked_step(rels: Seq<SemanticRelationship>, s: Seq<char>, x: Seq<char>, forward: bool, m: int, y: Seq<char>)
    requires
        linked(rels, s, x, forward),
        0 <= m < rels.len(),
        step_from(rels[m], x, forward) == Some(y),
    ensures
        linked(rels, s, y, forward),
{
    let r = rels[m];
    if forward {
        let p = choose|p: Seq<SemanticRelationship>| #[trigger] is_directed_walk(rels, p, s, x);
        lemma_follow_out_push(p, r, s);
        let q = p.push(r);
        assert forall|i: int| 0 <= i < q.len() implies rels.contains(#[trigger] q[i]) by {
            if i < p.len() {
                assert(q[i] == p[i]);
            }
        }
        assert(is_directed_walk(rels, q, s, y));
    } else {
        let p = choose|p: Seq<SemanticRelationship>| #[trigger] is_directed_walk(rels, p, x, s);
        lemma_follow_out_prepend(r, p, s);
        let q = seq![r] + p;
        assert forall|i: int| 0 <= i < q.len() implies rels.contains(#[trigger] q[i]) by {
            if i > 0 {
                assert(q[i] == p[i - 1]);
            } else {
                assert(q[0] == r);
            }
        }
        assert(is_directed_walk(rels, q, y, s));
    }
}

/// A set closed in a direction and holding `s` holds every id linked to `s`.
pub proof fn lemma_closed_in_linked(rels: Seq<SemanticRelationship>, v: Seq<Seq<char>>, forward: bool, s: Seq<char>, x: Seq<char>)
    requires
        closed_in(rels, v, forward),
        v.contains(s),
        linked(rels, s, x, forward),
    ensures
        v.contains(x),
{
    if forward {
        let p = choose|p: Seq<SemanticRelationship>| #[trigger] is_directed_walk(rels, p, s, x);
        lemma_closed_forward(rels, v, p, s, x);
    } else {
        let p = choose|p: Seq<SemanticRelationship>| #[trigger] is_directed_walk(rels, p, x, s);
        lemma_closed_backward(rels, v, p, x, s);
    }
}

/// Forward closure along a directed walk.
pub proof fn lemma_closed_forward(rels: Seq<SemanticRelationship>, v: Seq<Seq<char>>, p: Seq<SemanticRelationship>, a: Seq<char>, b: Seq<char>)
    requires
        closed_in(rels, v, true),
        v.contains(a),
        is_directed_walk(rels, p, a, b),
    ensures
        v.contains(b),
    decreases p.len(),
{
    if p.len() > 0 {
        let q = p.drop_last();
        let y = follow_out(q, a)->0;
        assert forall|i: int| 0 <= i < q.len() implies rels.contains(#[trigger] q[i]) by {
            assert(q[i] == p[i]);
        }
        lemma_closed_forward(rels, v, q, a, y);
        assert(rels.contains(p[p.len() - 1]));
        let m = choose|m: int| 0 <= m < rels.len() && rels[m] == p.last();
        assert(step_from(rels[m], y, true) == Some(b));
    }
}

/// Backward closure along a directed walk.
pub proof fn lemma_closed_backward(rels: Seq<SemanticRelationship>, v: Seq<Seq<char>>, p: Seq<SemanticRelationship>, a: Seq<char>, b: Seq<char>)
    requires
        closed_in(rels, v, false),
        v.contains(b),
        is_directed_walk(rels, p, a, b),
    ensures
        v.contains(a),
    decreases p.len(),
{
    if p.len() > 0 {
        let q = p.drop_last();
        let y = follow_out(q, a)->0;
        assert forall|i: int| 0 <= i < q.len() implies rels.contains(#[trigger] q[i]) by {
            assert(q[i] == p[i]);
        }
        assert(rels.contains(p[p.len() - 1]));
        let m = choose|m: int| 0 <= m < rels.len() && rels[m] == p.last();
        assert(step_from(rels[m], b, false) == Some(y));
        lemma_closed_backward(rels, v, q, a, y);
    }
}

/// Whether `x` is among the referenced ids.
fn refs_have(v: &Vec<&String>, x: &str) -> (r: bool)
    ensures
        r == refs_view(v@).contains(x@),
{
    let mut i: usize = 0;
    while i < v.len()
        invariant
            i <= v@.len(),
            forall|j: int| 0 <= j < i ==> (*(#[trigger] v@[j]))@ != x@,
        decreases v.len() - i,
    {
        if str_eq(v[i].as_str(), x) {
            assert(refs_view(v@)[i as int] == x@);
            return true;
        }
        i = i + 1;
    }
    assert forall|j: int| 0 <= j < refs_view(v@).len() implies refs_view(v@)[j] != x@ by {
        assert(refs_view(v@)[j] == (*v@[j])@);
    }
    false
}

/// Appending keeps what a sequence of references holds, and adds the new one.
pub proof fn lemma_refs_push(v: Seq<&String>, y: &String)
    ensures
        refs_view(v.push(y)) == refs_view(v).push((*y)@),
        forall|z: Seq<char>| refs_view(v).contains(z) ==> #[trigger] refs_view(v.push(y)).contains(z),
        refs_view(v.push(y)).contains((*y)@),
{
    assert(refs_view(v.push(y)) =~= refs_view(v).push((*y)@));
    assert forall|z: Seq<char>| refs_view(v).contains(z) implies #[trigger] refs_view(v.push(y)).contains(z) by {
        lemma_contains_push(refs_view(v), z, (*y)@);
    }
    assert(refs_view(v.push(y))[v.len() as int] == (*y)@);
}

/// Each relationship end lies among the ends.
pub proof fn lemma_ends_and(rels: Seq<SemanticRelationship>, seeds: Seq<Seq<char>>, m: int, k: int)
    ensures
        0 <= m < rels.len() ==> ends_and(rels, seeds).contains(rels[m].source_id@) && ends_and(rels, seeds).contains(
            rels[m].target_id@,
        ),
        0 <= k < seeds.len() ==> ends_and(rels, seeds).contains(seeds[k]),
{
    let u = ends_and(rels, seeds);
    let srcs = rels.map_values(|r: SemanticRelationship| r.source_id@);
    let tgts = rels.map_values(|r: SemanticRelationship| r.target_id@);
    if 0 <= m < rels.len() {
        assert(u[seeds.len() + m] == srcs[m]);
        assert(u[seeds.len() + rels.len() + m] == tgts[m]);
    }
    if 0 <= k < seeds.len() {
        assert(u[k] == seeds[k]);
    }
}

impl SemanticMemory {
    /// The id one step from `x` along the `m`-th relationship in the given direction.
    fn step_id(&self, m: usize, x: &str, forward: bool) -> (r: Option<&String>)
        requires
            m < self.relationships@.len(),
        ensures
            match step_from(self.relationships@[m as int], x@, forward) {
                Some(y) => r is Some && (*r->0)@ == y,
                None => r is None,
            },
    {
        let rel = &self.relationships[m];
        if forward {
            if str_eq(rel.source_id.as_str(), x) {
                Some(&rel.target_id)
            } else {
                None
            }
        } else {
            if str_eq(rel.target_id.as_str(), x) {
                Some(&rel.source_id)
            } else {
                None
            }
        }
    }

    /// Every id linked to one of `seeds` in the given direction: forwards the ids they
    /// reach, backwards the ids that reach them; the seeds come first.
    #[verifier::rlimit(60)]
    fn directed_closure<'a>(&'a self, seeds: &Vec<&'a String>, forward: bool) -> (r: Vec<&'a String>)
        ensures
            distinct(refs_view(r@)),
            forall|k: int| 0 <= k < seeds@.len() ==> refs_view(r@).contains(#[trigger] refs_view(seeds@)[k]),
            forall|x: Seq<char>| #[trigger] refs_view(r@).contains(x) ==> seeded(self.relationships@, refs_view(seeds@), x, forward),
            closed_in(self.relationships@, refs_view(r@), forward),
            seeds@.len() > 0 ==> r@.len() > 0 && refs_view(r@)[0] == refs_view(seeds@)[0],
    {
        let ghost rels = self.relationships@;
        let ghost sd = refs_view(seeds@);
        let ghost u = ends_and(rels, sd);
        let mut visited: Vec<&'a String> = Vec::new();
        let mut stack: Vec<&'a String> = Vec::new();
        let mut i: usize = 0;
        while i < seeds.len()
            invariant
                rels == self.relationships@,
                sd == refs_view(seeds@),
                u == ends_and(rels, sd),
                i <= seeds@.len(),
                refs_view(visited@) == refs_view(stack@),
                distinct(refs_view(visited@)),
                forall|j: int| 0 <= j < visited@.len() ==> u.contains(#[trigger] refs_view(visited@)[j]),
                forall|k: int| 0 <= k < i ==> refs_view(visited@).contains(#[trigger] sd[k]),
                forall|x: Seq<char>| #[trigger] refs_view(visited@).contains(x) ==> seeded(rels, sd, x, forward),
                i > 0 ==> visited@.len() > 0 && refs_view(visited@)[0] == sd[0],
                i == 0 ==> visited@.len() == 0,
            decreases seeds@.len() - i,
        {
            let s = seeds[i];
            let ghost vb = visited@;
            let ghost sb = stack@;
            assert(sd[i as int] == (*s)@);
            if !refs_have(&visited, s.as_str()) {
                visited.push(s);
                stack.push(s);
                proof {
                    lemma_refs_push(vb, s);
                    lemma_refs_push(sb, s);
                    if i == 0 {
                        assert(refs_view(visited@)[0] == sd[0]);
                    } else {
                        assert(refs_view(visited@)[0] == refs_view(vb)[0]);
                    }
                    lemma_ends_and(rels, sd, -1, i as int);
                    lemma_reaches_self(rels, sd[i as int]);
                    assert(linked(rels, sd[i as int], sd[i as int], forward));
                    let vn = refs_view(visited@);
                    assert forall|j: int| 0 <= j < visited@.len() implies u.contains(#[trigger] vn[j]) by {
                        if j < vb.len() {
                            assert(vn[j] == refs_view(vb)[j]);
                        }
                    }
                    assert forall|x: Seq<char>| #[trigger] vn.contains(x) implies seeded(rels, sd, x, forward) by {
                        let j = choose|j: int| 0 <= j < vn.len() && vn[j] == x;
                        if j < vb.len() {
                            assert(refs_view(vb)[j] == x);
                            assert(refs_view(vb).contains(x));
                        }
                    }
                }
            }
            i = i + 1;
        }
        while stack.len() > 0
            invariant
                rels == self.relationships@,
                sd == refs_view(seeds@),
                u == ends_and(rels, sd),
                distinct(refs_view(visited@)),
                forall|j: int| 0 <= j < visited@.len() ==> u.contains(#[trigger] refs_view(visited@)[j]),
                forall|k: int| 0 <= k < sd.len() ==> refs_view(visited@).contains(#[trigger] sd[k]),
                forall|x: Seq<char>| #[trigger] refs_view(visited@).contains(x) ==> seeded(rels, sd, x, forward),
                distinct(refs_view(stack@)),
                forall|j: int| 0 <= j < stack@.len() ==> refs_view(visited@).contains(#[trigger] refs_view(stack@)[j]),
                sd.len() > 0 ==> visited@.len() > 0 && refs_view(visited@)[0] == sd[0],
                forall|x: Seq<char>, m: int|
                    #![trigger refs_view(visited@).contains(x), step_from(rels[m], x, forward)]
                    refs_view(visited@).contains(x) && 0 <= m < rels.len() && step_from(rels[m], x, forward) is Some
                        ==> refs_view(visited@).contains(step_from(rels[m], x, forward)->0) || refs_view(stack@).contains(x),
            decreases 2 * (u.len() - visited@.len()) + stack@.len(),
        {
            proof {
                lemma_distinct_within(refs_view(visited@), u);
            }
            let ghost budget = 2 * (u.len() - visited@.len()) + stack@.len();
            let ghost sv0 = refs_view(stack@);
            let x = stack.pop().unwrap();
            let ghost xv = (*x)@;
            proof {
                assert(refs_view(stack@) =~= sv0.take(sv0.len() - 1));
                assert(sv0[sv0.len() - 1] == xv);
                assert(refs_view(visited@).contains(xv));
                let vv = refs_view(visited@);
                assert forall|z: Seq<char>, mm: int|
                    #![trigger vv.contains(z), step_from(rels[mm], z, forward)]
                    vv.contains(z) && 0 <= mm < rels.len() && step_from(rels[mm], z, forward) is Some implies vv.contains(
                        step_from(rels[mm], z, forward)->0,
                    ) || refs_view(stack@).contains(z) || z == xv by {
                    if sv0.contains(z) && z != xv {
                        let j = choose|j: int| 0 <= j < sv0.len() && sv0[j] == z;
                        assert(j < sv0.len() - 1);
                        assert(refs_view(stack@)[j] == z);
                    }
                }
            }
            let mut m: usize = 0;
            while m < self.relationships.len()
                invariant
                    rels == self.relationships@,
                    sd == refs_view(seeds@),
                    u == ends_and(rels, sd),
                    xv == (*x)@,
                    refs_view(visited@).contains(xv),
                    distinct(refs_view(visited@)),
                    forall|j: int| 0 <= j < visited@.len() ==> u.contains(#[trigger] refs_view(visited@)[j]),
                    forall|k: int| 0 <= k < sd.len() ==> refs_view(visited@).contains(#[trigger] sd[k]),
                    forall|z: Seq<char>| #[trigger] refs_view(visited@).contains(z) ==> seeded(rels, sd, z, forward),
                    distinct(refs_view(stack@)),
                    !refs_view(stack@).contains(xv),
                    forall|j: int| 0 <= j < stack@.len() ==> refs_view(visited@).contains(#[trigger] refs_view(stack@)[j]),
                    forall|z: Seq<char>, mm: int|
                        #![trigger refs_view(visited@).contains(z), step_from(rels[mm], z, forward)]
                        refs_view(visited@).contains(z) && 0 <= mm < rels.len() && step_from(rels[mm], z, forward) is Some
                            ==> refs_view(visited@).contains(step_from(rels[mm], z, forward)->0) || refs_view(stack@).contains(z)
                            || z == xv,
                    forall|mm: int|
                        0 <= mm < m && (#[trigger] step_from(rels[mm], xv, forward)) is Some ==> refs_view(visited@).contains(
                            step_from(rels[mm], xv, forward)->0,
                        ),
                    2 * (u.len() - visited@.len()) + stack@.len() <= budget - 1,
                    visited@.len() <= u.len(),
                    sd.len() > 0 ==> visited@.len() > 0 && refs_view(visited@)[0] == sd[0],
                decreases rels.len() - m,
            {
                match self.step_id(m, x.as_str(), forward) {
                    Some(y) => {
                        if !refs_have(&visited, y.as_str()) {
                            let ghost vb = visited@;
                            let ghost sb = stack@;
                            visited.push(y);
                            stack.push(y);
                            proof {
                                lemma_refs_push(vb, y);
                                lemma_refs_push(sb, y);
                                if sd.len() > 0 {
                                    assert(refs_view(visited@)[0] == refs_view(vb)[0]);
                                }
                                lemma_ends_and(rels, sd, m as int, -1);
                                let w = (*y)@;
                                assert(u.contains(w)) by {
                                    if forward {
                                        assert(w == rels[m as int].target_id@);
                                    } else {
                                        assert(w == rels[m as int].source_id@);
                                    }
                                }
                                let vn = refs_view(visited@);
                                let sn = refs_view(stack@);
                                lemma_distinct_within(vn, u);
                                let k0 = choose|k0: int| 0 <= k0 < sd.len() && #[trigger] linked(rels, sd[k0], xv, forward);
                                lemma_linked_step(rels, sd[k0], xv, forward, m as int, w);
                                assert forall|j: int| 0 <= j < visited@.len() implies u.contains(#[trigger] vn[j]) by {
                                    if j < vb.len() {
                                        assert(vn[j] == refs_view(vb)[j]);
                                    }
                                }
                                assert forall|z: Seq<char>| #[trigger] vn.contains(z) implies seeded(rels, sd, z, forward) by {
                                    let j = choose|j: int| 0 <= j < vn.len() && vn[j] == z;
                                    if j < vb.len() {
                                        assert(refs_view(vb)[j] == z);
                                        assert(refs_view(vb).contains(z));
                                    }
                                }
                                assert forall|j: int| 0 <= j < stack@.len() implies vn.contains(#[trigger] sn[j]) by {
                                    if j < sb.len() {
                                        assert(sn[j] == refs_view(sb)[j]);
                                    }
                                }
                                assert(!sn.contains(xv)) by {
                                    if sn.contains(xv) {
                                        let j = choose|j: int| 0 <= j < sn.len() && sn[j] == xv;
                                        if j < sb.len() {
                                            assert(refs_view(sb)[j] == xv);
                                        } else {
                                            assert(vb.len() >= 0);
                                            assert(refs_view(vb).contains(xv));
                                        }
                                    }
                                }
                                assert forall|z: Seq<char>, mm: int|
                                    #![trigger vn.contains(z), step_from(rels[mm], z, forward)]
                                    vn.contains(z) && 0 <= mm < rels.len() && step_from(rels[mm], z, forward) is Some implies vn.contains(
                                        step_from(rels[mm], z, forward)->0,
                                    ) || sn.contains(z) || z == xv by {
                                    if z != w {
                                        let j = choose|j: int| 0 <= j < vn.len() && vn[j] == z;
                                        assert(refs_view(vb)[j] == z);
                                        assert(refs_view(vb).contains(z));
                                    }
                                }
                            }
                        }
                    },
                    None => {},
                }
                m = m + 1;
            }
            proof {
                let vn = refs_view(visited@);
                assert forall|z: Seq<char>, mm: int|
                    #![trigger vn.contains(z), step_from(rels[mm], z, forward)]
                    vn.contains(z) && 0 <= mm < rels.len() && step_from(rels[mm], z, forward) is Some implies vn.contains(
                        step_from(rels[mm], z, forward)->0,
                    ) || refs_view(stack@).contains(z) by {
                }
            }
        }
        proof {
            let vn = refs_view(visited@);
            assert forall|z: Seq<char>, mm: int|
                #![trigger vn.contains(z), step_from(rels[mm], z, forward)]
                vn.contains(z) && 0 <= mm < rels.len() && step_from(rels[mm], z, forward) is Some implies vn.contains(
                    step_from(rels[mm], z, forward)->0,
                ) by {
                assert(!refs_view(stack@).contains(z));
            }
        }
        visited
    }
}

/// Some item reaches `x`.
pub open spec fn reached_from_items(rels: Seq<SemanticRelationship>, items: Seq<crate::item::SemanticItem>, x: Seq<char>) -> bool {
    exists|k: int| 0 <= k < items.len() && #[trigger] reaches(rels, items[k].id@, x)
}

/// The ids of each component.
pub open spec fn scc_view(c: Seq<Vec<&str>>) -> Seq<Seq<Seq<char>>> {
    c.map_values(|v: Vec<&str>| Seq::new(v@.len(), |j: int| v@[j]@))
}

/// Some component holds `x`.
pub open spec fn in_some(cs: Seq<Seq<Seq<char>>>, x: Seq<char>) -> bool {
    exists|i: int| 0 <= i < cs.len() && #[trigger] cs[i].contains(x)
}

/// No id occurs twice over all the components.
pub open spec fn apart(cs: Seq<Seq<Seq<char>>>) -> bool {
    forall|a: int, b: int, c: int, d: int|
        0 <= a < cs.len() && 0 <= b < cs[a].len() && 0 <= c < cs.len() && 0 <= d < cs[c].len() && (a != c || b != d)
            ==> #[trigger] cs[a][b] != #[trigger] cs[c][d]
}

impl SemanticMemory {
    /// The ids that `x` reaches and that reach `x`, `x` first.
    fn component_of<'a>(&'a self, x: &'a String) -> (r: Vec<&'a String>)
        ensures
            distinct(refs_view(r@)),
            r@.len() >= 1,
            refs_view(r@)[0] == x@,
            forall|y: Seq<char>| #[trigger] refs_view(r@).contains(y) <==> mutual(self.relationships@, x@, y),
    {
        let ghost rels = self.relationships@;
        let mut one: Vec<&'a String> = Vec::new();
        one.push(x);
        proof {
            assert(refs_view(one@) =~= seq![x@]);
        }
        let fw = self.directed_closure(&one, true);
        let bw = self.directed_closure(&one, false);
        let mut out: Vec<&'a String> = Vec::new();
        let mut q: usize = 0;
        while q < fw.len()
            invariant
                rels == self.relationships@,
                refs_view(one@) == seq![x@],
                distinct(refs_view(fw@)),
                fw@.len() > 0 && refs_view(fw@)[0] == x@,
                forall|z: Seq<char>| #[trigger] refs_view(fw@).contains(z) ==> seeded(rels, refs_view(one@), z, true),
                forall|z: Seq<char>| #[trigger] refs_view(bw@).contains(z) ==> seeded(rels, refs_view(one@), z, false),
                closed_in(rels, refs_view(fw@), true),
                closed_in(rels, refs_view(bw@), false),
                refs_view(bw@).contains(x@),
                q <= fw@.len(),
                refs_view(out@) == refs_view(fw@).take(q as int).filter(|z: Seq<char>| refs_view(bw@).contains(z)),
            decreases fw@.len() - q,
        {
            proof {
                crate::seqs::lemma_filter_step(refs_view(fw@), q as int, |z: Seq<char>| refs_view(bw@).contains(z));
            }
            if refs_have(&bw, fw[q].as_str()) {
                let ghost ob = out@;
                out.push(fw[q]);
                proof {
                    lemma_refs_push(ob, fw[q as int]);
                    assert(refs_view(fw@)[q as int] == (*fw@[q as int])@);
                }
            }
            q = q + 1;
        }
        proof {
            let f = refs_view(fw@);
            let b = refs_view(bw@);
            let keep = |z: Seq<char>| b.contains(z);
            crate::seqs::lemma_take_full(f);
            crate::seqs::lemma_filter_members(f, keep);
            let o = refs_view(out@);
            assert(keep(f[0]));
            assert(f.filter(keep).contains(f[0]));
            assert forall|y: Seq<char>| #[trigger] o.contains(y) <==> mutual(rels, x@, y) by {
                if o.contains(y) {
                    assert(f.contains(y) && b.contains(y));
                    assert(seeded(rels, refs_view(one@), y, true));
                    assert(refs_view(one@)[0] == x@);
                    assert(seeded(rels, refs_view(one@), y, false));
                }
                if mutual(rels, x@, y) {
                    assert(refs_view(one@)[0] == x@);
                    assert(f.contains(x@)) by {
                        assert(f[0] == x@);
                    }
                    assert(linked(rels, x@, y, true));
                    lemma_closed_in_linked(rels, f, true, x@, y);
                    assert(linked(rels, x@, y, false));
                    lemma_closed_in_linked(rels, b, false, x@, y);
                    assert(keep(y));
                }
            }
            // distinct and first element
            assert(o.len() >= 1 && o[0] == x@) by {
                assert(f.take(1).filter(keep) =~= seq![x@]) by {
                    crate::seqs::lemma_filter_step(f, 0, keep);
                    assert(f.take(0).filter(keep) =~= Seq::<Seq<char>>::empty());
                }
                lemma_filter_prefix_first(f, keep);
            }
            lemma_filter_distinct(f, keep);
        }
        out
    }
}

/// Filtering keeps a kept first element first.
pub proof fn lemma_filter_prefix_first(f: Seq<Seq<char>>, keep: spec_fn(Seq<char>) -> bool)
    requires
        f.len() > 0,
        keep(f[0]),
    ensures
        f.filter(keep).len() >= 1,
        f.filter(keep)[0] == f[0],
    decreases f.len(),
{
    reveal_with_fuel(Seq::filter, 1);
    if f.len() == 1 {
        assert(f.drop_last() =~= Seq::<Seq<char>>::empty());
        assert(f.drop_last().filter(keep) =~= Seq::<Seq<char>>::empty());
    } else {
        lemma_filter_prefix_first(f.drop_last(), keep);
        assert(f.drop_last()[0] == f[0]);
    }
}

/// Filtering keeps distinct elements distinct.
pub proof fn lemma_filter_distinct(f: Seq<Seq<char>>, keep: spec_fn(Seq<char>) -> bool)
    requires
        distinct(f),
    ensures
        distinct(f.filter(keep)),
{
    assert forall|i: int, j: int| 0 <= i < j < f.filter(keep).len() implies f.filter(keep)[i] != f.filter(keep)[j] by {
        crate::seqs::lemma_filter_subsequence(f, keep, i, j);
        let (a, b) = choose|a: int, b: int| 0 <= a < b < f.len() && f[a] == f.filter(keep)[i] && f[b] == f.filter(keep)[j];
    }
}

impl SemanticMemory {
    /// The strongly connected components of the ids reached from the items along
    /// relationships followed from source to target: each component holds exactly the
    /// ids that reach its first id and that it reaches, and every reached id lies in
    /// exactly one component.
    #[verifier::rlimit(80)]
    pub fn get_strongly_connected_components(&self) -> (r: Vec<Vec<&str>>)
        ensures
            forall|i: int| 0 <= i < scc_view(r@).len() ==> #[trigger] scc_view(r@)[i].len() >= 1,
            forall|i: int, j: int|
                0 <= i < scc_view(r@).len() && 0 <= j < scc_view(r@)[i].len() ==> reached_from_items(
                    self.relationships@,
                    self.items@,
                    #[trigger] scc_view(r@)[i][j],
                ) && mutual(self.relationships@, scc_view(r@)[i][0], scc_view(r@)[i][j]),
            forall|i: int, x: Seq<char>|
                0 <= i < scc_view(r@).len() && #[trigger] mutual(self.relationships@, scc_view(r@)[i][0], x) ==> scc_view(
                    r@,
                )[i].contains(x),
            forall|x: Seq<char>| #[trigger] reached_from_items(self.relationships@, self.items@, x) ==> in_some(scc_view(r@), x),
            apart(scc_view(r@)),
    {
        let ghost rels = self.relationships@;
        let ghost items = self.items@;
        let mut seeds: Vec<&String> = Vec::new();
        let mut k: usize = 0;
        while k < self.items.len()
            invariant
                items == self.items@,
                k <= items.len(),
                refs_view(seeds@) == crate::memory::item_ids(items).take(k as int),
            decreases items.len() - k,
        {
            let ghost sb = seeds@;
            seeds.push(&self.items[k].id);
            proof {
                lemma_refs_push(sb, &items[k as int].id);
                assert(crate::memory::item_ids(items).take(k + 1) =~= crate::memory::item_ids(items).take(k as int).push(
                    items[k as int].id@,
                ));
            }
            k = k + 1;
        }
        proof {
            assert(crate::memory::item_ids(items).take(items.len() as int) =~= crate::memory::item_ids(items));
        }
        let vis = self.directed_closure(&seeds, true);
        let ghost vv = refs_view(vis@);
        proof {
            assert forall|z: Seq<char>| #[trigger] vv.contains(z) implies reached_from_items(rels, items, z) by {
                let kk = choose|kk: int| 0 <= kk < refs_view(seeds@).len() && #[trigger] linked(rels, refs_view(seeds@)[kk], z, true);
                assert(refs_view(seeds@)[kk] == items[kk].id@);
            }
        }
        let mut assigned: Vec<&String> = Vec::new();
        let mut comps: Vec<Vec<&str>> = Vec::new();
        let mut t: usize = 0;
        while t < vis.len()
            invariant
                rels == self.relationships@,
                items == self.items@,
                vv == refs_view(vis@),
                t <= vis@.len(),
                forall|z: Seq<char>| #[trigger] vv.contains(z) ==> reached_from_items(rels, items, z),
                forall|z: Seq<char>| #[trigger] refs_view(assigned@).contains(z) <==> in_some(scc_view(comps@), z),
                forall|t2: int| 0 <= t2 < t ==> in_some(scc_view(comps@), #[trigger] vv[t2]),
                forall|i: int| 0 <= i < scc_view(comps@).len() ==> #[trigger] scc_view(comps@)[i].len() >= 1,
                forall|i: int, j: int|
                    0 <= i < scc_view(comps@).len() && 0 <= j < scc_view(comps@)[i].len() ==> reached_from_items(
                        rels,
                        items,
                        #[trigger] scc_view(comps@)[i][j],
                    ) && mutual(rels, scc_view(comps@)[i][0], scc_view(comps@)[i][j]),
                forall|i: int, x: Seq<char>|
                    0 <= i < scc_view(comps@).len() && #[trigger] mutual(rels, scc_view(comps@)[i][0], x) ==> scc_view(
                        comps@,
                    )[i].contains(x),
                apart(scc_view(comps@)),
            decreases vis@.len() - t,
        {
            let x = vis[t];
            assert(vv[t as int] == (*x)@);
            if !refs_have(&assigned, x.as_str()) {
                let comp_refs = self.component_of(x);
                let mut comp: Vec<&str> = Vec::new();
                let mut q: usize = 0;
                let ghost ab = refs_view(assigned@);
                while q < comp_refs.len()
                    invariant
                        q <= comp_refs@.len(),
                        Seq::new(comp@.len(), |j: int| comp@[j]@) == refs_view(comp_refs@).take(q as int),
                        refs_view(assigned@) == ab + refs_view(comp_refs@).take(q as int),
                    decreases comp_refs@.len() - q,
                {
                    let ghost cb = comp@;
                    let ghost asb = assigned@;
                    comp.push(comp_refs[q].as_str());
                    assigned.push(comp_refs[q]);
                    proof {
                        lemma_refs_push(asb, comp_refs@[q as int]);
                        assert(Seq::new(comp@.len(), |j: int| comp@[j]@) =~= refs_view(comp_refs@).take(q + 1));
                        assert(refs_view(assigned@) =~= ab + refs_view(comp_refs@).take(q + 1));
                    }
                    q = q + 1;
                }
                let ghost cs = scc_view(comps@);
                let ghost c = refs_view(comp_refs@);
                let ghost xv = (*x)@;
                comps.push(comp);
                proof {
                    assert(refs_view(comp_refs@).take(comp_refs@.len() as int) =~= c);
                    let cs2 = scc_view(comps@);
                    let n = cs.len() as int;
                    assert(cs2 =~= cs.push(c));
                    assert(cs2[n] == c);
                    assert forall|a: int| 0 <= a < n implies #[trigger] cs2[a] == cs[a] by {}
                    assert(refs_view(assigned@) == ab + c);
                    // every member of the new component is mutual with x, hence reached
                    assert forall|y: Seq<char>| c.contains(y) implies !in_some(cs, y) by {
                        if in_some(cs, y) {
                            let i = choose|i: int| 0 <= i < cs.len() && #[trigger] cs[i].contains(y);
                            let j = choose|j: int| 0 <= j < cs[i].len() && cs[i][j] == y;
                            assert(mutual(rels, cs[i][0], cs[i][j]));
                            assert(mutual(rels, xv, y));
                            lemma_reaches_trans(rels, cs[i][0], y, xv);
                            lemma_reaches_trans(rels, xv, y, cs[i][0]);
                            assert(mutual(rels, cs[i][0], xv));
                            assert(cs[i].contains(xv));
                            assert(in_some(cs, xv));
                            assert(ab.contains(xv));
                        }
                    }
                    assert forall|z: Seq<char>| #[trigger] refs_view(assigned@).contains(z) <==> in_some(cs2, z) by {
                        let ra = refs_view(assigned@);
                        if ra.contains(z) {
                            let j = choose|j: int| 0 <= j < ra.len() && ra[j] == z;
                            if j < ab.len() {
                                assert(ab[j] == z);
                                assert(ab.contains(z));
                                let i = choose|i: int| 0 <= i < cs.len() && #[trigger] cs[i].contains(z);
                                assert(cs2[i] == cs[i]);
                            } else {
                                assert(c[j - ab.len()] == z);
                                assert(cs2[n].contains(z));
                            }
                        }
                        if in_some(cs2, z) {
                            let i = choose|i: int| 0 <= i < cs2.len() && #[trigger] cs2[i].contains(z);
                            if i < n {
                                assert(cs[i] == cs2[i]);
                                assert(in_some(cs, z));
                                assert(ab.contains(z));
                                let j = choose|j: int| 0 <= j < ab.len() && ab[j] == z;
                                assert(ra[j] == z);
                            } else {
                                let j = choose|j: int| 0 <= j < c.len() && c[j] == z;
                                assert(ra[ab.len() + j] == z);
                            }
                        }
                    }
                    assert forall|t2: int| 0 <= t2 < t + 1 implies in_some(cs2, #[trigger] vv[t2]) by {
                        if t2 < t {
                            let i = choose|i: int| 0 <= i < cs.len() && #[trigger] cs[i].contains(vv[t2]);
                            assert(cs2[i] == cs[i]);
                        } else {
                            assert(c[0] == xv);
                            assert(cs2[n].contains(xv));
                        }
                    }
                    assert forall|i: int| 0 <= i < cs2.len() implies #[trigger] cs2[i].len() >= 1 by {
                        if i < n {
                            assert(cs2[i] == cs[i]);
                        }
                    }
                    assert(vv.contains(xv));
                    assert(reached_from_items(rels, items, xv));
                    assert forall|i: int, j: int|
                        0 <= i < cs2.len() && 0 <= j < cs2[i].len() implies reached_from_items(rels, items, #[trigger] cs2[i][j])
                            && mutual(rels, cs2[i][0], cs2[i][j]) by {
                        if i < n {
                            assert(cs2[i] == cs[i]);
                        } else {
                            assert(c.contains(c[j]));
                            assert(mutual(rels, xv, c[j]));
                            let kk = choose|kk: int| 0 <= kk < items.len() && #[trigger] reaches(rels, items[kk].id@, xv);
                            lemma_reaches_trans(rels, items[kk].id@, xv, c[j]);
                        }
                    }
                    assert forall|i: int, y: Seq<char>|
                        0 <= i < cs2.len() && #[trigger] mutual(rels, cs2[i][0], y) implies cs2[i].contains(y) by {
                        if i < n {
                            assert(cs2[i] == cs[i]);
                        }
                    }
                    assert forall|a: int, b: int, cc: int, d: int|
                        0 <= a < cs2.len() && 0 <= b < cs2[a].len() && 0 <= cc < cs2.len() && 0 <= d < cs2[cc].len() && (a
                            != cc || b != d) implies #[trigger] cs2[a][b] != #[trigger] cs2[cc][d] by {
                        if a < n && cc < n {
                            assert(cs2[a] == cs[a] && cs2[cc] == cs[cc]);
                        } else if a == n && cc == n {
                        } else if a == n {
                            assert(cs2[cc] == cs[cc]);
                            assert(c.contains(c[b]));
                            assert(!in_some(cs, c[b]));
                            if cs2[a][b] == cs2[cc][d] {
                                assert(cs[cc].contains(c[b]));
                            }
                        } else {
                            assert(cs2[a] == cs[a]);
                            assert(c.contains(c[d]));
                            assert(!in_some(cs, c[d]));
                            if cs2[a][b] == cs2[cc][d] {
                                assert(cs[a].contains(c[d]));
                            }
                        }
                    }
                }
            }
            t = t + 1;
        }
        proof {
            let cs = scc_view(comps@);
            assert forall|z: Seq<char>| #[trigger] reached_from_items(rels, items, z) implies in_some(cs, z) by {
                let kk = choose|kk: int| 0 <= kk < items.len() && #[trigger] reaches(rels, items[kk].id@, z);
                assert(refs_view(seeds@)[kk] == items[kk].id@);
                assert(vv.contains(items[kk].id@));
                assert(linked(rels, items[kk].id@, z, true));
                lemma_closed_in_linked(rels, vv, true, items[kk].id@, z);
                let t2 = choose|t2: int| 0 <= t2 < vv.len() && vv[t2] == z;
            }
        }
        comps
    }
}

} // verus!
