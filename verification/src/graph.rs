//! Walks, shortest paths and reachability in the graph that the relationships draw
//! between item ids. A relationship links its two ends in both directions.

use vstd::prelude::*;
use crate::item::{derefs, strings_view};
use crate::memory::SemanticMemory;
use crate::relationship::{other_end, SemanticRelationship};
use crate::text::{owned, str_eq};

verus! {

/// The id reached from `a` by following the relationships of `p` in order, each from
/// the end reached so far to its other end; `None` when one of them does not touch
/// the id reached so far.
pub open spec fn follow(p: Seq<SemanticRelationship>, a: Seq<char>) -> Option<Seq<char>>
    decreases p.len(),
{
    if p.len() == 0 {
        Some(a)
    } else {
        match follow(p.drop_last(), a) {
            Some(y) => other_end(p.last(), y),
            None => None,
        }
    }
}

/// `p` is a walk from `a` to `b` through relationships of `rels`.
pub open spec fn is_walk(rels: Seq<SemanticRelationship>, p: Seq<SemanticRelationship>, a: Seq<char>, b: Seq<char>) -> bool {
    follow(p, a) == Some(b) && forall|i: int| 0 <= i < p.len() ==> rels.contains(#[trigger] p[i])
}

/// Some walk through `rels` leads from `a` to `b`.
pub open spec fn reachable(rels: Seq<SemanticRelationship>, a: Seq<char>, b: Seq<char>) -> bool {
    exists|p: Seq<SemanticRelationship>| #[trigger] is_walk(rels, p, a, b)
}

/// The fewest relationships a walk from `a` to `b` takes is `n`.
pub open spec fn distance_is(rels: Seq<SemanticRelationship>, a: Seq<char>, b: Seq<char>, n: int) -> bool {
    &&& exists|p: Seq<SemanticRelationship>| #[trigger] is_walk(rels, p, a, b) && p.len() == n
    &&& forall|p: Seq<SemanticRelationship>| #[trigger] is_walk(rels, p, a, b) ==> p.len() >= n
}

/// Every id that some relationship of `rels` or the walk's start can name.
pub open spec fn id_universe(rels: Seq<SemanticRelationship>, a: Seq<char>) -> Seq<Seq<char>> {
    seq![a] + rels.map_values(|r: SemanticRelationship| r.source_id@) + rels.map_values(
        |r: SemanticRelationship| r.target_id@,
    )
}

/// `x` is listed in `ns` with a distance of at most `bound`.
pub open spec fn listed_within(ns: Seq<Seq<char>>, ds: Seq<usize>, x: Seq<char>, bound: int) -> bool {
    exists|j: int| 0 <= j < ns.len() && #[trigger] ns[j] == x && ds[j] <= bound
}

/// Every neighbour of each of the first `h` listed ids is listed, one step further at most.
pub open spec fn expanded_upto(rels: Seq<SemanticRelationship>, ns: Seq<Seq<char>>, ds: Seq<usize>, h: int) -> bool {
    forall|k: int, m: int|
        0 <= k < h && 0 <= m < rels.len() && (#[trigger] other_end(rels[m], ns[k])) is Some ==> listed_within(
            ns,
            ds,
            other_end(rels[m], ns[k])->0,
            ds[k] + 1,
        )
}

/// The walk that the parent links give from the first listed id to the `k`-th.
pub open spec fn parent_walk(rels: Seq<SemanticRelationship>, parent: Seq<usize>, links: Seq<usize>, k: int) -> Seq<
    SemanticRelationship,
>
    decreases k,
{
    if k <= 0 || k >= parent.len() || parent[k] >= k {
        Seq::empty()
    } else {
        parent_walk(rels, parent, links, parent[k] as int).push(rels[links[k] as int])
    }
}

/// The `k`-th listed id was reached from an earlier one through the relationship
/// `links[k]`, one step further from the start.
pub open spec fn linked(
    rels: Seq<SemanticRelationship>,
    ns: Seq<Seq<char>>,
    ds: Seq<usize>,
    parent: Seq<usize>,
    links: Seq<usize>,
    k: int,
) -> bool {
    &&& parent[k] < k
    &&& links[k] < rels.len()
    &&& other_end(rels[links[k] as int], ns[parent[k] as int]) == Some(ns[k])
    &&& ds[k] == ds[parent[k] as int] + 1
}

/// The facts a breadth-first search keeps about the ids it has listed: distinct ids,
/// each within reach of the start, each reached from an earlier one, distances that
/// never decrease along the list.
pub open spec fn bfs_list(
    rels: Seq<SemanticRelationship>,
    start: Seq<char>,
    ns: Seq<Seq<char>>,
    ds: Seq<usize>,
    parent: Seq<usize>,
    links: Seq<usize>,
) -> bool {
    &&& ns.len() >= 1
    &&& ds.len() == ns.len()
    &&& parent.len() == ns.len()
    &&& links.len() == ns.len()
    &&& ns[0] == start
    &&& ds[0] == 0
    &&& forall|i: int, j: int| 0 <= i < j < ns.len() ==> ns[i] != ns[j]
    &&& forall|k: int| 0 <= k < ns.len() ==> id_universe(rels, start).contains(#[trigger] ns[k])
    &&& forall|k: int| 0 < k < ns.len() ==> #[trigger] linked(rels, ns, ds, parent, links, k)
    &&& forall|k: int| 0 <= k < ns.len() ==> #[trigger] ds[k] <= k
    &&& forall|i: int, j: int| 0 <= i <= j < ns.len() ==> ds[i] <= ds[j]
}

/// Following one more relationship from the end of a walk.
pub proof fn lemma_follow_push(p: Seq<SemanticRelationship>, r: SemanticRelationship, a: Seq<char>)
    ensures
        follow(p.push(r), a) == (match follow(p, a) {
            Some(y) => other_end(r, y),
            None => None,
        }),
{
    assert(p.push(r).drop_last() =~= p);
}

/// The parent links give a walk to each listed id, as long as its distance.
pub proof fn lemma_parent_walk(
    rels: Seq<SemanticRelationship>,
    start: Seq<char>,
    ns: Seq<Seq<char>>,
    ds: Seq<usize>,
    parent: Seq<usize>,
    links: Seq<usize>,
    k: int,
)
    requires
        bfs_list(rels, start, ns, ds, parent, links),
        0 <= k < ns.len(),
    ensures
        is_walk(rels, parent_walk(rels, parent, links, k), start, ns[k]),
        parent_walk(rels, parent, links, k).len() == ds[k],
    decreases k,
{
    if k == 0 {
    } else {
        assert(linked(rels, ns, ds, parent, links, k));
        let pk = parent[k] as int;
        lemma_parent_walk(rels, start, ns, ds, parent, links, pk);
        let q = parent_walk(rels, parent, links, pk);
        let r = rels[links[k] as int];
        lemma_follow_push(q, r, start);
        assert(parent_walk(rels, parent, links, k) == q.push(r));
        assert forall|i: int| 0 <= i < q.push(r).len() implies rels.contains(#[trigger] q.push(r)[i]) by {
            if i < q.len() {
                assert(q.push(r)[i] == q[i]);
            } else {
                assert(rels[links[k] as int] == r);
            }
        }
    }
}

/// A list of distinct ids all drawn from `u` is no longer than `u`.
pub proof fn lemma_distinct_within(ns: Seq<Seq<char>>, u: Seq<Seq<char>>)
    requires
        forall|i: int, j: int| 0 <= i < j < ns.len() ==> ns[i] != ns[j],
        forall|k: int| 0 <= k < ns.len() ==> u.contains(#[trigger] ns[k]),
    ensures
        ns.len() <= u.len(),
{
    assert(ns.no_duplicates()) by {
        assert forall|i: int, j: int| 0 <= i < ns.len() && 0 <= j < ns.len() && i != j implies ns[i] != ns[j] by {
            if i < j {
            } else {
            }
        }
    }
    ns.unique_seq_to_set();
    assert(ns.to_set().subset_of(u.to_set())) by {
        assert forall|x: Seq<char>| ns.to_set().contains(x) implies u.to_set().contains(x) by {
            let k = choose|k: int| 0 <= k < ns.len() && ns[k] == x;
            assert(u.contains(ns[k]));
        }
    }
    u.lemma_cardinality_of_set();
    vstd::set_lib::lemma_len_subset(ns.to_set(), u.to_set());
}

/// While the search is under way, every id within `dist[h]` steps of the start is
/// listed with a distance no larger than the steps taken.
pub proof fn lemma_bfs_frontier(
    rels: Seq<SemanticRelationship>,
    start: Seq<char>,
    ns: Seq<Seq<char>>,
    ds: Seq<usize>,
    parent: Seq<usize>,
    links: Seq<usize>,
    h: int,
    p: Seq<SemanticRelationship>,
    x: Seq<char>,
)
    requires
        bfs_list(rels, start, ns, ds, parent, links),
        0 <= h < ns.len(),
        expanded_upto(rels, ns, ds, h),
        is_walk(rels, p, start, x),
        p.len() <= ds[h],
    ensures
        listed_within(ns, ds, x, p.len() as int),
    decreases p.len(),
{
    if p.len() == 0 {
        assert(ns[0] == x);
    } else {
        let q = p.drop_last();
        let y = follow(q, start)->0;
        assert(follow(q, start) is Some);
        assert(is_walk(rels, q, start, y)) by {
            assert forall|i: int| 0 <= i < q.len() implies rels.contains(#[trigger] q[i]) by {
                assert(q[i] == p[i]);
            }
        }
        lemma_bfs_frontier(rels, start, ns, ds, parent, links, h, q, y);
        let j = choose|j: int| 0 <= j < ns.len() && #[trigger] ns[j] == y && ds[j] <= q.len();
        if j >= h {
            assert(ds[h] <= ds[j]);
            assert(false);
        }
        assert(rels.contains(p[p.len() - 1]));
        let m = choose|m: int| 0 <= m < rels.len() && rels[m] == p.last();
        assert(other_end(rels[m], ns[j]) == Some(x));
        assert(listed_within(ns, ds, x, ds[j] + 1));
        let j2 = choose|j2: int| 0 <= j2 < ns.len() && #[trigger] ns[j2] == x && ds[j2] <= ds[j] + 1;
        assert(ds[j2] <= p.len());
    }
}

/// Once every listed id is expanded, every id reachable from the start is listed.
pub proof fn lemma_bfs_complete(
    rels: Seq<SemanticRelationship>,
    start: Seq<char>,
    ns: Seq<Seq<char>>,
    ds: Seq<usize>,
    parent: Seq<usize>,
    links: Seq<usize>,
    p: Seq<SemanticRelationship>,
    x: Seq<char>,
)
    requires
        bfs_list(rels, start, ns, ds, parent, links),
        expanded_upto(rels, ns, ds, ns.len() as int),
        is_walk(rels, p, start, x),
    ensures
        ns.contains(x),
    decreases p.len(),
{
    if p.len() == 0 {
        assert(ns[0] == x);
    } else {
        let q = p.drop_last();
        let y = follow(q, start)->0;
        assert(is_walk(rels, q, start, y)) by {
            assert forall|i: int| 0 <= i < q.len() implies rels.contains(#[trigger] q[i]) by {
                assert(q[i] == p[i]);
            }
        }
        lemma_bfs_complete(rels, start, ns, ds, parent, links, q, y);
        let j = choose|j: int| 0 <= j < ns.len() && ns[j] == y;
        assert(rels.contains(p[p.len() - 1]));
        let m = choose|m: int| 0 <= m < rels.len() && rels[m] == p.last();
        assert(other_end(rels[m], ns[j]) == Some(x));
        assert(listed_within(ns, ds, x, ds[j] + 1));
        let j2 = choose|j2: int| 0 <= j2 < ns.len() && #[trigger] ns[j2] == x && ds[j2] <= ds[j] + 1;
    }
}

/// Whether `x` is one of the listed ids.
fn listed(nodes: &Vec<String>, x: &str) -> (r: bool)
    ensures
        r == strings_view(nodes@).contains(x@),
{
    let mut i: usize = 0;
    while i < nodes.len()
        invariant
            i <= nodes@.len(),
            forall|j: int| 0 <= j < i ==> (#[trigger] nodes@[j])@ != x@,
        decreases nodes.len() - i,
    {
        if str_eq(nodes[i].as_str(), x) {
            assert(strings_view(nodes@)[i as int] == x@);
            return true;
        }
        i = i + 1;
    }
    assert forall|j: int| 0 <= j < strings_view(nodes@).len() implies strings_view(nodes@)[j] != x@ by {
        assert(strings_view(nodes@)[j] == nodes@[j]@);
    }
    false
}

/// Listing one more id keeps every id listed as it was.
pub proof fn lemma_listed_push(ns: Seq<Seq<char>>, ds: Seq<usize>, x: Seq<char>, bound: int, y: Seq<char>, d: usize)
    requires
        ds.len() == ns.len(),
        listed_within(ns, ds, x, bound),
    ensures
        listed_within(ns.push(y), ds.push(d), x, bound),
{
    let j = choose|j: int| 0 <= j < ns.len() && #[trigger] ns[j] == x && ds[j] <= bound;
    assert(ns.push(y)[j] == ns[j]);
}

/// Listing one more id keeps the expanded ids expanded.
pub proof fn lemma_expanded_push(
    rels: Seq<SemanticRelationship>,
    ns: Seq<Seq<char>>,
    ds: Seq<usize>,
    h: int,
    y: Seq<char>,
    d: usize,
)
    requires
        ds.len() == ns.len(),
        0 <= h <= ns.len(),
        expanded_upto(rels, ns, ds, h),
    ensures
        expanded_upto(rels, ns.push(y), ds.push(d), h),
{
    assert forall|k: int, m: int|
        0 <= k < h && 0 <= m < rels.len() && (#[trigger] other_end(rels[m], ns.push(y)[k])) is Some implies listed_within(
            ns.push(y),
            ds.push(d),
            other_end(rels[m], ns.push(y)[k])->0,
            ds.push(d)[k] + 1,
        ) by {
        assert(ns.push(y)[k] == ns[k]);
        assert(ds.push(d)[k] == ds[k]);
        lemma_listed_push(ns, ds, other_end(rels[m], ns[k])->0, ds[k] + 1, y, d);
    }
}

/// Listing a new neighbour of the `h`-th id, one step further, keeps the search's facts.
pub proof fn lemma_bfs_push(
    rels: Seq<SemanticRelationship>,
    start: Seq<char>,
    ns: Seq<Seq<char>>,
    ds: Seq<usize>,
    parent: Seq<usize>,
    links: Seq<usize>,
    h: usize,
    m: usize,
    y: Seq<char>,
)
    requires
        bfs_list(rels, start, ns, ds, parent, links),
        h < ns.len(),
        forall|k: int| h <= k < ns.len() ==> #[trigger] ds[k] <= ds[h as int] + 1,
        m < rels.len(),
        other_end(rels[m as int], ns[h as int]) == Some(y),
        !ns.contains(y),
        ds[h as int] + 1 <= usize::MAX,
    ensures
        bfs_list(rels, start, ns.push(y), ds.push((ds[h as int] + 1) as usize), parent.push(h), links.push(m)),
{
    let d = (ds[h as int] + 1) as usize;
    let ns2 = ns.push(y);
    let ds2 = ds.push(d);
    let parent2 = parent.push(h);
    let links2 = links.push(m);
    let n = ns.len() as int;
    let u = id_universe(rels, start);
    assert(u.contains(y)) by {
        let srcs = rels.map_values(|r: SemanticRelationship| r.source_id@);
        let tgts = rels.map_values(|r: SemanticRelationship| r.target_id@);
        if rels[m as int].source_id@ == ns[h as int] {
            assert(u[1 + srcs.len() + m] == tgts[m as int]);
        } else {
            assert(u[1 + m] == srcs[m as int]);
        }
    }
    assert(ns2[n] == y);
    assert(ds2[n] == d);
    assert(ns2[0] == ns[0] && ds2[0] == ds[0]);
    assert(ds2.len() == ns2.len() && parent2.len() == ns2.len() && links2.len() == ns2.len());
    assert(ns2[h as int] == ns[h as int]);
    assert(ds2[h as int] == ds[h as int]);
    assert forall|i: int, j: int| 0 <= i < j < ns2.len() implies ns2[i] != ns2[j] by {
        if j == n {
            assert(ns2[i] == ns[i]);
        }
    }
    assert forall|k: int| 0 <= k < ns2.len() implies u.contains(#[trigger] ns2[k]) by {
        if k < n {
            assert(ns2[k] == ns[k]);
        }
    }
    assert forall|k: int| 0 < k < ns2.len() implies #[trigger] linked(rels, ns2, ds2, parent2, links2, k) by {
        if k < n {
            assert(linked(rels, ns, ds, parent, links, k));
            assert(parent2[k] == parent[k]);
            assert(links2[k] == links[k]);
            assert(ns2[k] == ns[k]);
            assert(ds2[k] == ds[k]);
            assert(ns2[parent2[k] as int] == ns[parent[k] as int]);
            assert(ds2[parent2[k] as int] == ds[parent[k] as int]);
        } else {
            assert(parent2[k] == h);
            assert(links2[k] == m);
        }
    }
    assert forall|k: int| 0 <= k < ns2.len() implies #[trigger] ds2[k] <= k by {
        if k < n {
            let _ = ds[k];
            assert(ds2[k] == ds[k]);
        } else {
            let _ = ds[h as int];
        }
    }
    assert forall|i: int, j: int| 0 <= i <= j < ns2.len() implies ds2[i] <= ds2[j] by {
        if j < n {
            assert(ds2[i] == ds[i] && ds2[j] == ds[j]);
        } else if i < n {
            assert(ds2[i] == ds[i]);
            if i >= h {
                let _ = ds[i];
            } else {
                assert(ds[i] <= ds[h as int]);
            }
        }
    }
    assert(bfs_list(rels, start, ns2, ds2, parent2, links2));
}

/// The walk the parent links give from the first listed id to the `h`-th, as
/// references into `rels`.
fn rebuild_walk<'a>(rels: &'a Vec<SemanticRelationship>, parent: &Vec<usize>, links: &Vec<usize>, h: usize) -> (r: Vec<
    &'a SemanticRelationship,
>)
    requires
        h < parent@.len(),
        links@.len() == parent@.len(),
        forall|k: int| 0 < k < parent@.len() ==> #[trigger] parent@[k] < k && links@[k] < rels@.len(),
    ensures
        derefs(r@) == parent_walk(rels@, parent@, links@, h as int),
{
    let ghost pw = parent_walk(rels@, parent@, links@, h as int);
    let mut rev: Vec<usize> = Vec::new();
    let mut cur: usize = h;
    while cur > 0
        invariant
            h < parent@.len(),
            links@.len() == parent@.len(),
            forall|k: int| 0 < k < parent@.len() ==> #[trigger] parent@[k] < k && links@[k] < rels@.len(),
            cur < parent@.len(),
            pw == parent_walk(rels@, parent@, links@, cur as int) + Seq::new(
                rev@.len(),
                |i: int| rels@[rev@[rev@.len() - 1 - i] as int],
            ),
            forall|i: int| 0 <= i < rev@.len() ==> #[trigger] rev@[i] < rels@.len(),
        decreases cur,
    {
        let ghost before = rev@;
        let v = links[cur];
        rev.push(v);
        let ghost tail = Seq::new(before.len(), |i: int| rels@[before[before.len() - 1 - i] as int]);
        let ghost tail2 = Seq::new(rev@.len(), |i: int| rels@[rev@[rev@.len() - 1 - i] as int]);
        proof {
            assert(tail2 =~= seq![rels@[v as int]] + tail);
            let pc = parent@[cur as int] as int;
            assert(parent_walk(rels@, parent@, links@, cur as int) == parent_walk(rels@, parent@, links@, pc).push(
                rels@[v as int],
            ));
            assert(parent_walk(rels@, parent@, links@, pc).push(rels@[v as int]) + tail =~= parent_walk(
                rels@,
                parent@,
                links@,
                pc,
            ) + tail2);
        }
        cur = parent[cur];
    }
    let ghost tail = Seq::new(rev@.len(), |i: int| rels@[rev@[rev@.len() - 1 - i] as int]);
    assert(pw =~= tail);
    let mut out: Vec<&SemanticRelationship> = Vec::new();
    let mut j: usize = rev.len();
    while j > 0
        invariant
            j <= rev@.len(),
            tail == Seq::new(rev@.len(), |i: int| rels@[rev@[rev@.len() - 1 - i] as int]),
            forall|i: int| 0 <= i < rev@.len() ==> #[trigger] rev@[i] < rels@.len(),
            derefs(out@) == tail.take(rev@.len() - j),
        decreases j,
    {
        j = j - 1;
        let ghost before = derefs(out@);
        let ghost t = rev@.len() - 1 - j;
        out.push(&rels[rev[j]]);
        proof {
            assert(tail[t] == rels@[rev@[j as int] as int]);
            assert(derefs(out@) =~= before.push(rels@[rev@[j as int] as int]));
            assert(tail.take(t + 1) =~= tail.take(t).push(tail[t]));
        }
    }
    assert(tail.take(rev@.len() as int) =~= tail);
    out
}

/// Lists every neighbour of the `h`-th id that is not listed yet, one step further,
/// recording how it was reached.
#[verifier::rlimit(40)]
fn expand_listed(
    rels: &Vec<SemanticRelationship>,
    nodes: &mut Vec<String>,
    dist: &mut Vec<usize>,
    parent: &mut Vec<usize>,
    links: &mut Vec<usize>,
    h: usize,
    Ghost(start): Ghost<Seq<char>>,
)
    requires
        bfs_list(rels@, start, strings_view(old(nodes)@), old(dist)@, old(parent)@, old(links)@),
        h < old(nodes)@.len(),
        expanded_upto(rels@, strings_view(old(nodes)@), old(dist)@, h as int),
        forall|k: int| h <= k < old(nodes)@.len() ==> #[trigger] old(dist)@[k] <= old(dist)@[h as int] + 1,
    ensures
        bfs_list(rels@, start, strings_view(final(nodes)@), final(dist)@, final(parent)@, final(links)@),
        expanded_upto(rels@, strings_view(final(nodes)@), final(dist)@, h + 1),
        final(nodes)@.len() >= old(nodes)@.len(),
        forall|k: int| 0 <= k < old(nodes)@.len() ==> #[trigger] final(nodes)@[k] == old(nodes)@[k],
        forall|k: int| 0 <= k < old(nodes)@.len() ==> #[trigger] final(dist)@[k] == old(dist)@[k],
        forall|k: int| h <= k < final(nodes)@.len() ==> #[trigger] final(dist)@[k] <= final(dist)@[h as int] + 1,
{
    let cur: String = nodes[h].clone();
    let ghost n0 = nodes@;
    let ghost d0 = dist@;
    assert(strings_view(nodes@)[h as int] == nodes@[h as int]@);
    let mut m: usize = 0;
    while m < rels.len()
        invariant
            h < nodes@.len(),
            nodes@.len() >= n0.len(),
            forall|k: int| 0 <= k < n0.len() ==> #[trigger] nodes@[k] == n0[k],
            d0.len() == n0.len(),
            forall|k: int| 0 <= k < n0.len() ==> #[trigger] dist@[k] == d0[k],
            cur@ == strings_view(nodes@)[h as int],
            bfs_list(rels@, start, strings_view(nodes@), dist@, parent@, links@),
            expanded_upto(rels@, strings_view(nodes@), dist@, h as int),
            forall|k: int| h <= k < nodes@.len() ==> #[trigger] dist@[k] <= dist@[h as int] + 1,
            forall|mm: int|
                0 <= mm < m && (#[trigger] other_end(rels@[mm], strings_view(nodes@)[h as int])) is Some ==> listed_within(
                    strings_view(nodes@),
                    dist@,
                    other_end(rels@[mm], strings_view(nodes@)[h as int])->0,
                    dist@[h as int] + 1,
                ),
        decreases rels@.len() - m,
    {
        let ghost ns = strings_view(nodes@);
        let ghost ds = dist@;
        match rels[m].get_other_item_id(cur.as_str()) {
            Some(o) => {
                if !listed(nodes, o.as_str()) {
                    let count = nodes.len();
                    assert(dist@[h as int] <= h && h < count);
                    let d = dist[h] + 1;
                    proof {
                        lemma_bfs_push(rels@, start, ns, ds, parent@, links@, h, m, o@);
                        lemma_expanded_push(rels@, ns, ds, h as int, o@, d);
                    }
                    nodes.push(o.clone());
                    dist.push(d);
                    parent.push(h);
                    links.push(m);
                    proof {
                        let ns2 = strings_view(nodes@);
                        assert(ns2 =~= ns.push(o@));
                        assert(ns2[h as int] == ns[h as int]);
                        assert(dist@[h as int] == ds[h as int]);
                        assert forall|mm: int|
                            0 <= mm < m + 1 && (#[trigger] other_end(rels@[mm], ns2[h as int])) is Some implies listed_within(
                                ns2,
                                dist@,
                                other_end(rels@[mm], ns2[h as int])->0,
                                dist@[h as int] + 1,
                            ) by {
                            if mm < m {
                                lemma_listed_push(ns, ds, other_end(rels@[mm], ns[h as int])->0, ds[h as int] + 1, o@, d);
                            } else {
                                assert(ns2[ns.len() as int] == o@);
                            }
                        }
                        assert forall|k: int| h <= k < nodes@.len() implies #[trigger] dist@[k] <= dist@[h as int] + 1 by {
                            if k < ns.len() {
                                assert(dist@[k] == ds[k]);
                            }
                        }
                    }
                } else {
                    proof {
                        let jj = choose|jj: int| 0 <= jj < ns.len() && ns[jj] == o@;
                        if jj >= h {
                            let _ = ds[jj];
                        } else {
                            assert(ds[jj] <= ds[h as int]);
                        }
                        assert(listed_within(ns, ds, o@, ds[h as int] + 1));
                    }
                }
            },
            None => {},
        }
        m = m + 1;
    }
}

impl SemanticMemory {
    /// A shortest walk of relationships from `start_id` to `end_id`, followed in either
    /// direction: the empty walk when the ids are equal, `None` when no walk joins them.
    pub fn find_shortest_path(&self, start_id: &str, end_id: &str) -> (r: Option<Vec<&SemanticRelationship>>)
        ensures
            match r {
                Some(path) => is_walk(self.relationships@, derefs(path@), start_id@, end_id@) && forall|
                    p: Seq<SemanticRelationship>,
                | #[trigger] is_walk(self.relationships@, p, start_id@, end_id@) ==> p.len() >= path@.len(),
                None => !reachable(self.relationships@, start_id@, end_id@),
            },
    {
        let ghost rels = self.relationships@;
        let ghost start = start_id@;
        if str_eq(start_id, end_id) {
            let v: Vec<&SemanticRelationship> = Vec::new();
            proof {
                assert(derefs(v@) =~= Seq::<SemanticRelationship>::empty());
            }
            return Some(v);
        }
        let mut nodes: Vec<String> = Vec::new();
        nodes.push(owned(start_id));
        let mut dist: Vec<usize> = Vec::new();
        dist.push(0);
        let mut parent: Vec<usize> = Vec::new();
        parent.push(0);
        let mut links: Vec<usize> = Vec::new();
        links.push(0);
        let mut h: usize = 0;
        proof {
            let u = id_universe(rels, start);
            assert(u[0] == start);
            assert(strings_view(nodes@)[0] == start);
        }
        while h < nodes.len()
            invariant
                rels == self.relationships@,
                start == start_id@,
                start != end_id@,
                bfs_list(rels, start, strings_view(nodes@), dist@, parent@, links@),
                h <= nodes@.len(),
                expanded_upto(rels, strings_view(nodes@), dist@, h as int),
                forall|k: int| 0 <= k < h ==> strings_view(nodes@)[k] != end_id@,
                forall|k: int| h <= k < nodes@.len() ==> #[trigger] dist@[k] <= dist@[h as int] + 1,
            decreases id_universe(rels, start).len() - h,
        {
            proof {
                lemma_distinct_within(strings_view(nodes@), id_universe(rels, start));
            }
            assert(strings_view(nodes@)[h as int] == nodes@[h as int]@);
            if str_eq(nodes[h].as_str(), end_id) {
                let ghost ns = strings_view(nodes@);
                proof {
                    lemma_parent_walk(rels, start, ns, dist@, parent@, links@, h as int);
                    assert forall|k: int| 0 < k < parent@.len() implies #[trigger] parent@[k] < k && links@[k] < rels.len() by {
                        assert(linked(rels, ns, dist@, parent@, links@, k));
                    }
                }
                let out = rebuild_walk(&self.relationships, &parent, &links, h);
                proof {
                    assert forall|p: Seq<SemanticRelationship>| #[trigger] is_walk(rels, p, start, end_id@) implies p.len()
                        >= out@.len() by {
                        if p.len() < dist@[h as int] {
                            lemma_bfs_frontier(rels, start, ns, dist@, parent@, links@, h as int, p, end_id@);
                            let jj = choose|jj: int| 0 <= jj < ns.len() && #[trigger] ns[jj] == end_id@ && dist@[jj] <= p.len();
                            assert(jj == h);
                        }
                    }
                }
                return Some(out);
            }
            let ghost n0 = nodes@;
            expand_listed(&self.relationships, &mut nodes, &mut dist, &mut parent, &mut links, h, Ghost(start));
            proof {
                assert forall|k: int| 0 <= k < h + 1 implies strings_view(nodes@)[k] != end_id@ by {
                    assert(nodes@[k] == n0[k]);
                    assert(strings_view(nodes@)[k] == nodes@[k]@);
                    assert(strings_view(n0)[k] == n0[k]@);
                }
                if h + 1 < nodes@.len() {
                    assert forall|k: int| h + 1 <= k < nodes@.len() implies #[trigger] dist@[k] <= dist@[h + 1] + 1 by {
                        assert(dist@[h as int] <= dist@[h + 1]);
                    }
                }
            }
            h = h + 1;
        }
        proof {
            let ns = strings_view(nodes@);
            assert forall|p: Seq<SemanticRelationship>| !#[trigger] is_walk(rels, p, start, end_id@) by {
                if is_walk(rels, p, start, end_id@) {
                    lemma_bfs_complete(rels, start, ns, dist@, parent@, links@, p, end_id@);
                    let k = choose|k: int| 0 <= k < ns.len() && ns[k] == end_id@;
                }
            }
        }
        None
    }
}

} // verus!
