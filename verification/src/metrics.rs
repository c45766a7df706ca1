//! Distances between items: eccentricity, diameter, radius and centre of the graph.

use vstd::prelude::*;
use crate::graph::{distance_is, is_walk, reachable};
use crate::item::{derefs, SemanticItem};
use crate::memory::{involving, SemanticMemory};
use crate::reach::reach_within;
use crate::relationship::SemanticRelationship;
use crate::text::str_eq;

verus! {

/// Some item with an id other than `a` can be reached from `a`.
pub open spec fn reaches_other(rels: Seq<SemanticRelationship>, items: Seq<SemanticItem>, a: Seq<char>) -> bool {
    exists|j: int| 0 <= j < items.len() && items[j].id@ != a && #[trigger] reachable(rels, a, items[j].id@)
}

/// The largest distance from `a` to an item with another id that it reaches is `e`.
pub open spec fn eccentricity_is(rels: Seq<SemanticRelationship>, items: Seq<SemanticItem>, a: Seq<char>, e: int) -> bool {
    &&& exists|j: int| 0 <= j < items.len() && items[j].id@ != a && #[trigger] distance_is(rels, a, items[j].id@, e)
    &&& e >= 0
    &&& forall|j: int|
        0 <= j < items.len() && items[j].id@ != a && reachable(rels, a, #[trigger] items[j].id@) ==> reach_within(
            rels,
            a,
            items[j].id@,
            e,
        )
}

/// A walk within `n` steps is within any larger number of steps.
pub proof fn lemma_within_grow(rels: Seq<SemanticRelationship>, a: Seq<char>, b: Seq<char>, n: int, n2: int)
    requires
        reach_within(rels, a, b, n),
        n <= n2,
    ensures
        reach_within(rels, a, b, n2),
{
    let p = choose|p: Seq<SemanticRelationship>| #[trigger] is_walk(rels, p, a, b) && p.len() <= n;
}

/// A shortest walk gives the distance, and every walk is within it.
pub proof fn lemma_distance_within(rels: Seq<SemanticRelationship>, a: Seq<char>, b: Seq<char>, n: int)
    requires
        distance_is(rels, a, b, n),
    ensures
        reachable(rels, a, b),
        reach_within(rels, a, b, n as int),
{
    let p = choose|p: Seq<SemanticRelationship>| #[trigger] is_walk(rels, p, a, b) && p.len() == n;
}

/// The eccentricity is the distance to the farthest other item reached.
pub proof fn lemma_eccentricity_unique(rels: Seq<SemanticRelationship>, items: Seq<SemanticItem>, a: Seq<char>, e: int, e2: int)
    requires
        eccentricity_is(rels, items, a, e),
        eccentricity_is(rels, items, a, e2),
    ensures
        e == e2,
{
    let j = choose|j: int| 0 <= j < items.len() && items[j].id@ != a && #[trigger] distance_is(rels, a, items[j].id@, e);
    let j2 = choose|j2: int| 0 <= j2 < items.len() && items[j2].id@ != a && #[trigger] distance_is(rels, a, items[j2].id@, e2);
    lemma_distance_within(rels, a, items[j].id@, e);
    lemma_distance_within(rels, a, items[j2].id@, e2);
    assert(reach_within(rels, a, items[j].id@, e2));
    let p = choose|p: Seq<SemanticRelationship>| #[trigger] is_walk(rels, p, a, items[j].id@) && p.len() <= e2;
    assert(reach_within(rels, a, items[j2].id@, e));
    let q = choose|q: Seq<SemanticRelationship>| #[trigger] is_walk(rels, q, a, items[j2].id@) && q.len() <= e;
}

impl SemanticMemory {
    /// The largest distance from the `i`-th item to an item with another id that it
    /// reaches, or `None` when it reaches none.
    fn eccentricity(&self, i: usize) -> (r: Option<usize>)
        requires
            i < self.items@.len(),
        ensures
            match r {
                Some(e) => eccentricity_is(self.relationships@, self.items@, self.items@[i as int].id@, e as int),
                None => !reaches_other(self.relationships@, self.items@, self.items@[i as int].id@),
            },
    {
        let ghost rels = self.relationships@;
        let ghost items = self.items@;
        let ghost a = items[i as int].id@;
        let mut best: usize = 0;
        let mut found = false;
        let mut j: usize = 0;
        while j < self.items.len()
            invariant
                rels == self.relationships@,
                items == self.items@,
                i < items.len(),
                a == items[i as int].id@,
                j <= items.len(),
                found <==> exists|j2: int| 0 <= j2 < j && items[j2].id@ != a && #[trigger] reachable(rels, a, items[j2].id@),
                found ==> exists|j2: int| 0 <= j2 < j && items[j2].id@ != a && #[trigger] distance_is(rels, a, items[j2].id@, best as int),
                forall|j2: int|
                    0 <= j2 < j && items[j2].id@ != a && reachable(rels, a, #[trigger] items[j2].id@) ==> reach_within(
                        rels,
                        a,
                        items[j2].id@,
                        best as int,
                    ),
            decreases items.len() - j,
        {
            if !str_eq(self.items[i].id.as_str(), self.items[j].id.as_str()) {
                match self.find_shortest_path(self.items[i].id.as_str(), self.items[j].id.as_str()) {
                    Some(path) => {
                        let ghost b = items[j as int].id@;
                        proof {
                            assert(distance_is(rels, a, b, path@.len() as int)) by {
                                assert(derefs(path@).len() == path@.len());
                                assert(is_walk(rels, derefs(path@), a, b));
                            }
                            lemma_distance_within(rels, a, b, path@.len() as int);
                        }
                        let n = path.len();
                        let ghost old_best = best;
                        if !found || n > best {
                            best = n;
                        }
                        found = true;
                        proof {
                            assert forall|j2: int|
                                0 <= j2 < j + 1 && items[j2].id@ != a && reachable(rels, a, #[trigger] items[j2].id@) implies reach_within(
                                    rels,
                                    a,
                                    items[j2].id@,
                                    best as int,
                                ) by {
                                if j2 < j {
                                    lemma_within_grow(rels, a, items[j2].id@, old_best as int, best as int);
                                } else {
                                    lemma_within_grow(rels, a, b, n as int, best as int);
                                }
                            }
                            assert(reachable(rels, a, items[j as int].id@));
                        }
                    },
                    None => {},
                }
            }
            j = j + 1;
        }
        if found {
            proof {
                assert(eccentricity_is(rels, items, a, best as int));
            }
            Some(best)
        } else {
            None
        }
    }
}

/// Two items with different ids lie exactly `d` apart.
pub open spec fn distance_attained(rels: Seq<SemanticRelationship>, items: Seq<SemanticItem>, d: int) -> bool {
    exists|i: int, j: int|
        0 <= i < items.len() && 0 <= j < items.len() && items[i].id@ != items[j].id@ && #[trigger] distance_is(
            rels,
            items[i].id@,
            items[j].id@,
            d,
        )
}

/// Some item has eccentricity `e`.
pub open spec fn eccentricity_attained(rels: Seq<SemanticRelationship>, items: Seq<SemanticItem>, e: int) -> bool {
    exists|i: int| 0 <= i < items.len() && #[trigger] eccentricity_is(rels, items, items[i].id@, e)
}

/// `m` is the smallest eccentricity of the items.
pub open spec fn radius_is(rels: Seq<SemanticRelationship>, items: Seq<SemanticItem>, m: int) -> bool {
    &&& eccentricity_attained(rels, items, m)
    &&& forall|i: int, e: int| 0 <= i < items.len() && #[trigger] eccentricity_is(rels, items, items[i].id@, e) ==> m <= e
}

/// Keeps the items whose eccentricity is `e`.
pub open spec fn central_pred(rels: Seq<SemanticRelationship>, items: Seq<SemanticItem>, e: int) -> spec_fn(SemanticItem) -> bool {
    |it: SemanticItem| eccentricity_is(rels, items, it.id@, e)
}

/// An item that reaches another has an eccentricity.
pub proof fn lemma_reaches_other_has_eccentricity(rels: Seq<SemanticRelationship>, items: Seq<SemanticItem>, a: Seq<char>, e: int)
    requires
        eccentricity_is(rels, items, a, e),
    ensures
        reaches_other(rels, items, a),
{
    let j = choose|j: int| 0 <= j < items.len() && items[j].id@ != a && #[trigger] distance_is(rels, a, items[j].id@, e);
    lemma_distance_within(rels, a, items[j].id@, e);
}

impl SemanticMemory {
    /// The longest of the shortest distances between two items with different ids
    /// that reach each other, or `None` when no such pair exists.
    pub fn graph_diameter(&self) -> (r: Option<usize>)
        ensures
            r is Some ==> distance_attained(self.relationships@, self.items@, r->0 as int),
            r is Some ==> forall|i: int, j: int|
                0 <= i < self.items@.len() && 0 <= j < self.items@.len() && self.items@[i].id@ != self.items@[j].id@
                    && #[trigger] reachable(self.relationships@, self.items@[i].id@, self.items@[j].id@) ==> reach_within(
                    self.relationships@,
                    self.items@[i].id@,
                    self.items@[j].id@,
                    r->0 as int,
                ),
            r is None ==> forall|i: int, j: int|
                0 <= i < self.items@.len() && 0 <= j < self.items@.len() && self.items@[i].id@ != self.items@[j].id@
                    ==> !#[trigger] reachable(self.relationships@, self.items@[i].id@, self.items@[j].id@),
    {
        let ghost rels = self.relationships@;
        let ghost items = self.items@;
        if self.items.len() == 0 {
            return None;
        }
        let mut best: usize = 0;
        let mut found = false;
        let mut i: usize = 0;
        while i < self.items.len()
            invariant
                rels == self.relationships@,
                items == self.items@,
                i <= items.len(),
                found ==> exists|a: int, b: int|
                    0 <= a < items.len() && 0 <= b < items.len() && items[a].id@ != items[b].id@ && #[trigger] distance_is(
                        rels,
                        items[a].id@,
                        items[b].id@,
                        best as int,
                    ),
                forall|a: int, b: int|
                    0 <= a < i && 0 <= b < items.len() && items[a].id@ != items[b].id@ && #[trigger] reachable(
                        rels,
                        items[a].id@,
                        items[b].id@,
                    ) ==> found && reach_within(rels, items[a].id@, items[b].id@, best as int),
            decreases items.len() - i,
        {
            let ghost old_best = best;
            let ghost old_found = found;
            match self.eccentricity(i) {
                Some(e) => {
                    if !found || e > best {
                        best = e;
                    }
                    found = true;
                    proof {
                        let ai = items[i as int].id@;
                        let j = choose|j: int| 0 <= j < items.len() && items[j].id@ != ai && #[trigger] distance_is(rels, ai, items[j].id@, e as int);
                        if best != e {
                            let (a, b) = choose|a: int, b: int|
                                0 <= a < items.len() && 0 <= b < items.len() && items[a].id@ != items[b].id@ && #[trigger] distance_is(
                                    rels,
                                    items[a].id@,
                                    items[b].id@,
                                    old_best as int,
                                );
                            assert(best == old_best);
                        } else {
                            assert(distance_is(rels, items[i as int].id@, items[j].id@, best as int));
                        }
                        assert forall|a: int, b: int|
                            0 <= a < i + 1 && 0 <= b < items.len() && items[a].id@ != items[b].id@ && #[trigger] reachable(
                                rels,
                                items[a].id@,
                                items[b].id@,
                            ) implies found && reach_within(rels, items[a].id@, items[b].id@, best as int) by {
                            if a < i {
                                lemma_within_grow(rels, items[a].id@, items[b].id@, old_best as int, best as int);
                            } else {
                                assert(reach_within(rels, ai, items[b].id@, e as int));
                                lemma_within_grow(rels, ai, items[b].id@, e as int, best as int);
                            }
                        }
                    }
                },
                None => {
                    proof {
                        assert forall|a: int, b: int|
                            0 <= a < i + 1 && 0 <= b < items.len() && items[a].id@ != items[b].id@ && #[trigger] reachable(
                                rels,
                                items[a].id@,
                                items[b].id@,
                            ) implies found && reach_within(rels, items[a].id@, items[b].id@, best as int) by {
                            if a == i {
                                assert(reaches_other(rels, items, items[a].id@));
                            }
                        }
                    }
                },
            }
            i = i + 1;
        }
        if found {
            proof {
                let (a, b) = choose|a: int, b: int|
                    0 <= a < items.len() && 0 <= b < items.len() && items[a].id@ != items[b].id@ && #[trigger] distance_is(
                        rels,
                        items[a].id@,
                        items[b].id@,
                        best as int,
                    );
                assert(distance_is(self.relationships@, self.items@[a].id@, self.items@[b].id@, best as int));
                assert(distance_attained(self.relationships@, self.items@, best as int));
            }
            Some(best)
        } else {
            None
        }
    }

    /// The smallest eccentricity over the items that reach another item, or `None` when
    /// no item reaches another (or every such eccentricity is `usize::MAX`).
    pub fn graph_radius(&self) -> (r: Option<usize>)
        ensures
            r is Some ==> eccentricity_attained(self.relationships@, self.items@, r->0 as int) && r->0 < usize::MAX,
            r is Some ==> forall|i: int, e: int|
                0 <= i < self.items@.len() && #[trigger] eccentricity_is(self.relationships@, self.items@, self.items@[i].id@, e)
                    ==> r->0 <= e,
            r is None ==> forall|i: int, e: int|
                0 <= i < self.items@.len() && #[trigger] eccentricity_is(self.relationships@, self.items@, self.items@[i].id@, e)
                    ==> e >= usize::MAX,
    {
        let ghost rels = self.relationships@;
        let ghost items = self.items@;
        if self.items.len() == 0 {
            return None;
        }
        let mut min_ecc: usize = usize::MAX;
        let mut found = false;
        let mut i: usize = 0;
        while i < self.items.len()
            invariant
                rels == self.relationships@,
                items == self.items@,
                i <= items.len(),
                found ==> exists|a: int| 0 <= a < items.len() && #[trigger] eccentricity_is(rels, items, items[a].id@, min_ecc as int),
                !found ==> min_ecc == usize::MAX,
                forall|a: int, e: int| 0 <= a < i && #[trigger] eccentricity_is(rels, items, items[a].id@, e) ==> min_ecc <= e,
            decreases items.len() - i,
        {
            let ghost old_min = min_ecc;
            match self.eccentricity(i) {
                Some(e) => {
                    if e < min_ecc {
                        min_ecc = e;
                    }
                    found = true;
                    proof {
                        assert forall|a: int, e2: int| 0 <= a < i + 1 && #[trigger] eccentricity_is(rels, items, items[a].id@, e2) implies min_ecc <= e2 by {
                            if a == i {
                                lemma_eccentricity_unique(rels, items, items[a].id@, e as int, e2);
                            }
                        }
                        if min_ecc == e {
                            assert(eccentricity_is(rels, items, items[i as int].id@, min_ecc as int));
                        }
                    }
                },
                None => {
                    proof {
                        assert forall|a: int, e2: int| 0 <= a < i + 1 && #[trigger] eccentricity_is(rels, items, items[a].id@, e2) implies min_ecc <= e2 by {
                            if a == i {
                                lemma_reaches_other_has_eccentricity(rels, items, items[a].id@, e2);
                            }
                        }
                    }
                },
            }
            i = i + 1;
        }
        if found && min_ecc != usize::MAX {
            proof {
                let a = choose|a: int| 0 <= a < items.len() && #[trigger] eccentricity_is(rels, items, items[a].id@, min_ecc as int);
                assert(eccentricity_is(self.relationships@, self.items@, self.items@[a].id@, min_ecc as int));
                assert(eccentricity_attained(self.relationships@, self.items@, min_ecc as int));
            }
            Some(min_ecc)
        } else {
            proof {
                assert forall|a: int, e: int| 0 <= a < items.len() && #[trigger] eccentricity_is(rels, items, items[a].id@, e) implies e
                    >= usize::MAX by {
                    if found {
                        let a0 = choose|a0: int| 0 <= a0 < items.len() && #[trigger] eccentricity_is(rels, items, items[a0].id@, min_ecc as int);
                    }
                }
            }
            None
        }
    }
}

impl SemanticMemory {
    /// The items whose eccentricity equals the radius, in item order; none when the
    /// graph has no radius.
    pub fn find_central_items(&self) -> (r: Vec<&SemanticItem>)
        ensures
            forall|m: int|
                #[trigger] radius_is(self.relationships@, self.items@, m) && m < usize::MAX ==> derefs(r@) == self.items@.filter(
                    central_pred(self.relationships@, self.items@, m),
                ),
            (forall|m: int| !(#[trigger] radius_is(self.relationships@, self.items@, m) && m < usize::MAX)) ==> r@.len() == 0,
    {
        let ghost rels = self.relationships@;
        let ghost items = self.items@;
        let mut out: Vec<&SemanticItem> = Vec::new();
        match self.graph_radius() {
            Some(rad) => {
                let mut i: usize = 0;
                while i < self.items.len()
                    invariant
                        rels == self.relationships@,
                        items == self.items@,
                        i <= items.len(),
                        eccentricity_attained(rels, items, rad as int),
                        derefs(out@) == items.take(i as int).filter(central_pred(rels, items, rad as int)),
                    decreases items.len() - i,
                {
                    proof {
                        crate::seqs::lemma_filter_step(items, i as int, central_pred(rels, items, rad as int));
                    }
                    let e = self.eccentricity(i);
                    let keep = match e {
                        Some(x) => x == rad,
                        None => false,
                    };
                    proof {
                        let a = items[i as int].id@;
                        match e {
                            Some(x) => {
                                if x != rad && eccentricity_is(rels, items, a, rad as int) {
                                    lemma_eccentricity_unique(rels, items, a, x as int, rad as int);
                                }
                            },
                            None => {
                                if eccentricity_is(rels, items, a, rad as int) {
                                    lemma_reaches_other_has_eccentricity(rels, items, a, rad as int);
                                }
                            },
                        }
                        assert(keep == central_pred(rels, items, rad as int)(items[i as int]));
                    }
                    if keep {
                        let ghost before = derefs(out@);
                        out.push(&self.items[i]);
                        assert(derefs(out@) =~= before.push(items[i as int]));
                    }
                    i = i + 1;
                }
                proof {
                    assert(radius_is(rels, items, rad as int));
                    crate::seqs::lemma_take_full(items);
                    assert forall|m: int| #[trigger] radius_is(rels, items, m) && m < usize::MAX implies m == rad by {
                        let a = choose|a: int| 0 <= a < items.len() && #[trigger] eccentricity_is(rels, items, items[a].id@, rad as int);
                        let b = choose|b: int| 0 <= b < items.len() && #[trigger] eccentricity_is(rels, items, items[b].id@, m);
                    }
                }
            },
            None => {
                proof {
                    assert forall|m: int| !(#[trigger] radius_is(rels, items, m) && m < usize::MAX) by {
                        if radius_is(rels, items, m) {
                            let b = choose|b: int| 0 <= b < items.len() && #[trigger] eccentricity_is(rels, items, items[b].id@, m);
                        }
                    }
                }
            },
        }
        out
    }
}

/// The number of relationships that touch `id`.
pub open spec fn degree(rels: Seq<SemanticRelationship>, id: Seq<char>) -> nat {
    rels.filter(involving(id)).len()
}

/// Keeps the items touched by at least `min` relationships.
pub open spec fn hub_pred(rels: Seq<SemanticRelationship>, min: usize) -> spec_fn(SemanticItem) -> bool {
    |it: SemanticItem| degree(rels, it.id@) >= min
}

/// Keeps the items touched by exactly `d` relationships.
pub open spec fn degree_pred(rels: Seq<SemanticRelationship>, d: nat) -> spec_fn(SemanticItem) -> bool {
    |it: SemanticItem| degree(rels, it.id@) == d
}

/// The items of the pairs with their counts.
pub open spec fn counted_view(v: Seq<(&SemanticItem, usize)>) -> Seq<(SemanticItem, int)> {
    Seq::new(v.len(), |i: int| (*v[i].0, v[i].1 as int))
}

/// Each item with its degree.
pub open spec fn with_degrees(rels: Seq<SemanticRelationship>, s: Seq<SemanticItem>) -> Seq<(SemanticItem, int)> {
    s.map_values(|it: SemanticItem| (it, degree(rels, it.id@) as int))
}

impl SemanticMemory {
    /// The number of relationships that touch `item_id`.
    fn degree_of(&self, item_id: &str) -> (r: usize)
        ensures
            r == degree(self.relationships@, item_id@),
    {
        let rs = self.get_relationships_for_item(item_id);
        assert(derefs(rs@).len() == rs@.len());
        rs.len()
    }

    /// The items touched by at least `min_connections` relationships, each with that
    /// number, in item order.
    pub fn get_hub_items(&self, min_connections: usize) -> (r: Vec<(&SemanticItem, usize)>)
        ensures
            counted_view(r@) == with_degrees(self.relationships@, self.items@.filter(hub_pred(self.relationships@, min_connections))),
    {
        let ghost rels = self.relationships@;
        let ghost items = self.items@;
        let ghost p = hub_pred(rels, min_connections);
        let mut out: Vec<(&SemanticItem, usize)> = Vec::new();
        let mut i: usize = 0;
        while i < self.items.len()
            invariant
                rels == self.relationships@,
                items == self.items@,
                p == hub_pred(rels, min_connections),
                i <= items.len(),
                counted_view(out@) == with_degrees(rels, items.take(i as int).filter(p)),
            decreases items.len() - i,
        {
            proof {
                crate::seqs::lemma_filter_step(items, i as int, p);
            }
            let count = self.degree_of(self.items[i].id.as_str());
            if count >= min_connections {
                let ghost before = items.take(i as int).filter(p);
                let ghost cb = counted_view(out@);
                out.push((&self.items[i], count));
                proof {
                    assert(counted_view(out@) =~= cb.push((items[i as int], count as int)));
                    assert(with_degrees(rels, before.push(items[i as int])) =~= with_degrees(rels, before).push(
                        (items[i as int], degree(rels, items[i as int].id@) as int),
                    ));
                }
            }
            i = i + 1;
        }
        proof {
            crate::seqs::lemma_take_full(items);
        }
        out
    }

    /// The items touched by exactly `d` relationships, in item order.
    fn items_with_degree(&self, d: usize) -> (r: Vec<&SemanticItem>)
        ensures
            derefs(r@) == self.items@.filter(degree_pred(self.relationships@, d as nat)),
    {
        let ghost rels = self.relationships@;
        let ghost items = self.items@;
        let ghost p = degree_pred(rels, d as nat);
        let mut out: Vec<&SemanticItem> = Vec::new();
        let mut i: usize = 0;
        while i < self.items.len()
            invariant
                rels == self.relationships@,
                items == self.items@,
                p == degree_pred(rels, d as nat),
                i <= items.len(),
                derefs(out@) == items.take(i as int).filter(p),
            decreases items.len() - i,
        {
            proof {
                crate::seqs::lemma_filter_step(items, i as int, p);
            }
            if self.degree_of(self.items[i].id.as_str()) == d {
                let ghost before = derefs(out@);
                out.push(&self.items[i]);
                assert(derefs(out@) =~= before.push(items[i as int]));
            }
            i = i + 1;
        }
        proof {
            crate::seqs::lemma_take_full(items);
        }
        out
    }

    /// The items touched by exactly one relationship, in item order.
    pub fn get_leaf_items(&self) -> (r: Vec<&SemanticItem>)
        ensures
            derefs(r@) == self.items@.filter(degree_pred(self.relationships@, 1)),
    {
        self.items_with_degree(1)
    }

    /// The items touched by no relationship, in item order.
    pub fn get_isolated_items(&self) -> (r: Vec<&SemanticItem>)
        ensures
            derefs(r@) == self.items@.filter(degree_pred(self.relationships@, 0)),
    {
        self.items_with_degree(0)
    }
}


/// The centrality measures the analysis ranks items by.
#[derive(Clone, Copy, Debug, PartialEq, Eq, Structural)]
pub enum CentralityType {
    /// Number of relationships an item takes part in.
    Degree,
    /// How close an item is to all others.
    Closeness,
    /// How often an item lies on shortest paths between others.
    Betweenness,
    /// Influence through well-connected neighbours.
    Eigenvector,
    /// Influence by the random-surfer model.
    PageRank,
}

} // verus!
