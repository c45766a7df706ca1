//! An index from item ids to the positions of the relationships that start at, end
//! at, or touch each item.

use vstd::prelude::*;
use crate::memory::SemanticMemory;
use crate::relationship::SemanticRelationship;
use crate::text::{chars_eq, chars_of};

verus! {

/// Positions of relationships, listed under item ids.
pub type PositionIndex = Vec<(String, Vec<usize>)>;

/// Lookup indexes over a memory's relationships.
#[derive(Debug)]
pub struct RelationshipIndex {
    /// Under each source id, the positions of the relationships starting there.
    pub source_index: PositionIndex,
    /// Under each target id, the positions of the relationships ending there.
    pub target_index: PositionIndex,
    /// Under each id, the positions of the relationships touching it (a relationship
    /// from an item to itself is listed twice).
    pub bidirectional_index: PositionIndex,
}

/// Which end a listing goes by: 0 the source, 1 the target, 2 both.
pub open spec fn ends_listed(r: SemanticRelationship, k: Seq<char>, pos: usize, side: nat) -> Seq<usize> {
    let at_source: Seq<usize> = if r.source_id@ == k {
        seq![pos]
    } else {
        Seq::empty()
    };
    let at_target: Seq<usize> = if r.target_id@ == k {
        seq![pos]
    } else {
        Seq::empty()
    };
    if side == 0 {
        at_source
    } else if side == 1 {
        at_target
    } else {
        at_source + at_target
    }
}

/// The positions listed under `k` for the first `n` relationships.
pub open spec fn positions(rels: Seq<SemanticRelationship>, k: Seq<char>, side: nat, n: int) -> Seq<usize>
    decreases n,
{
    if n <= 0 {
        Seq::empty()
    } else {
        positions(rels, k, side, n - 1) + ends_listed(rels[n - 1], k, (n - 1) as usize, side)
    }
}

/// The index as a map from ids to position lists.
pub open spec fn index_map(v: Seq<(String, Vec<usize>)>) -> Map<Seq<char>, Seq<usize>>
    decreases v.len(),
{
    if v.len() == 0 {
        Map::empty()
    } else {
        index_map(v.drop_last()).insert(v.last().0@, v.last().1@)
    }
}

/// No id is listed twice.
pub open spec fn keys_distinct(v: Seq<(String, Vec<usize>)>) -> bool {
    forall|i: int, j: int| 0 <= i < j < v.len() ==> v[i].0@ != v[j].0@
}

/// The index the relationships call for: every id with a listed position, each with
/// its positions in order.
pub open spec fn expected_index(rels: Seq<SemanticRelationship>, side: nat, n: int) -> Map<Seq<char>, Seq<usize>> {
    Map::new(|k: Seq<char>| positions(rels, k, side, n).len() > 0, |k: Seq<char>| positions(rels, k, side, n))
}

/// With distinct ids, entry `i` gives the map's value of its id, and the map's ids are
/// the entries' ids.
proof fn lemma_index_map_entries(v: Seq<(String, Vec<usize>)>)
    requires
        keys_distinct(v),
    ensures
        forall|i: int|
            #![trigger v[i]]
            0 <= i < v.len() ==> index_map(v).dom().contains(v[i].0@) && index_map(v)[v[i].0@] == v[i].1@,
        forall|k: Seq<char>|
            #![trigger index_map(v).dom().contains(k)]
            index_map(v).dom().contains(k) ==> exists|i: int| #![trigger v[i]] 0 <= i < v.len() && v[i].0@ == k,
    decreases v.len(),
{
    if v.len() > 0 {
        let d = v.drop_last();
        assert(keys_distinct(d)) by {
            assert forall|i: int, j: int| 0 <= i < j < d.len() implies d[i].0@ != d[j].0@ by {
                assert(d[i] == v[i] && d[j] == v[j]);
            }
        }
        lemma_index_map_entries(d);
        assert forall|i: int| #![trigger v[i]] 0 <= i < v.len() implies index_map(v).dom().contains(v[i].0@)
            && index_map(v)[v[i].0@] == v[i].1@ by {
            if i < v.len() - 1 {
                assert(d[i] == v[i]);
                assert(v[i].0@ != v[v.len() - 1].0@);
            }
        }
        assert forall|k: Seq<char>| #![trigger index_map(v).dom().contains(k)] index_map(v).dom().contains(k) implies exists|
            i: int,
        | #![trigger v[i]] 0 <= i < v.len() && v[i].0@ == k by {
            if k != v.last().0@ {
                assert(index_map(d).dom().contains(k));
                let i = choose|i: int| #![trigger d[i]] 0 <= i < d.len() && d[i].0@ == k;
                assert(v[i] == d[i]);
            } else {
                assert(v[v.len() - 1].0@ == k);
            }
        }
    }
}

/// Lists `pos` under `key`, adding the id when it is new.
fn add_position(index: &mut PositionIndex, key: &String, pos: usize)
    requires
        keys_distinct(old(index)@),
    ensures
        keys_distinct(final(index)@),
        index_map(final(index)@) == index_map(old(index)@).insert(
            key@,
            (if index_map(old(index)@).contains_key(key@) {
                index_map(old(index)@)[key@]
            } else {
                Seq::empty()
            }).push(pos),
        ),
{
    proof {
        lemma_index_map_entries(index@);
    }
    let k = chars_of(key.as_str());
    let mut i: usize = 0;
    while i < index.len()
        invariant
            i <= index@.len(),
            k@ == key@,
            index@ == old(index)@,
            keys_distinct(index@),
            forall|j: int| 0 <= j < i ==> (#[trigger] index@[j]).0@ != key@,
        decreases index.len() - i,
    {
        let c = chars_of(index[i].0.as_str());
        if chars_eq(&c, &k) {
            let ghost before = index@;
            proof {
                lemma_index_map_entries(before);
            }
            let mut entry = index.remove(i);
            assert(entry == before[i as int]);
            entry.1.push(pos);
            index.insert(i, entry);
            proof {
                assert(index@ =~= before.update(i as int, entry));
                assert(entry.0@ == key@);
                assert(keys_distinct(index@)) by {
                    assert forall|a: int, b: int| 0 <= a < b < index@.len() implies index@[a].0@ != index@[b].0@ by {
                        assert(index@[a].0@ == before[a].0@);
                        assert(index@[b].0@ == before[b].0@);
                    }
                }
                lemma_index_map_entries(index@);
                let m_old = index_map(before);
                let m_new = index_map(index@);
                assert(before[i as int].0@ == key@);
                assert(m_old.dom().contains(key@) && m_old[key@] == before[i as int].1@);
                let expected = m_old.insert(key@, m_old[key@].push(pos));
                assert forall|x: Seq<char>| #[trigger] m_new.dom().contains(x) implies expected.dom().contains(x)
                    && m_new[x] == expected[x] by {
                    let t = choose|t: int| #![trigger index@[t]] 0 <= t < index@.len() && index@[t].0@ == x;
                    assert(before[t].0@ == x);
                    if t != i {
                        assert(index@[t] == before[t]);
                        assert(x != key@);
                    } else {
                        assert(index@[t].1@ =~= before[t].1@.push(pos));
                    }
                }
                assert forall|x: Seq<char>| #[trigger] expected.dom().contains(x) implies m_new.dom().contains(x) by {
                    if x != key@ {
                        assert(m_old.dom().contains(x));
                        let t = choose|t: int| #![trigger before[t]] 0 <= t < before.len() && before[t].0@ == x;
                        assert(index@[t].0@ == x);
                    } else {
                        assert(index@[i as int].0@ == x);
                    }
                }
                assert(m_new =~= expected);
            }
            return;
        }
        i = i + 1;
    }
    let ghost before = index@;
    let mut positions_list: Vec<usize> = Vec::new();
    positions_list.push(pos);
    index.push((key.clone(), positions_list));
    proof {
        assert(index@.drop_last() =~= before);
        lemma_index_map_entries(before);
        assert(!index_map(before).dom().contains(key@)) by {
            if index_map(before).dom().contains(key@) {
                let t = choose|t: int| #![trigger before[t]] 0 <= t < before.len() && before[t].0@ == key@;
                assert(before[t].0@ != key@);
            }
        }
        assert(keys_distinct(index@)) by {
            assert forall|a: int, b: int| 0 <= a < b < index@.len() implies index@[a].0@ != index@[b].0@ by {
                if b == before.len() {
                    assert(index@[a] == before[a]);
                } else {
                    assert(index@[a] == before[a] && index@[b] == before[b]);
                }
            }
        }
        assert(index@[index@.len() - 1].1@ =~= Seq::<usize>::empty().push(pos));
    }
}

/// The index of the relationships by the given side.
fn index_by(rels: &Vec<SemanticRelationship>, side: u8) -> (r: PositionIndex)
    requires
        side <= 2,
    ensures
        keys_distinct(r@),
        index_map(r@) == expected_index(rels@, side as nat, rels@.len() as int),
{
    let mut index: PositionIndex = Vec::new();
    let mut i: usize = 0;
    assert(index_map(index@) =~= expected_index(rels@, side as nat, 0));
    while i < rels.len()
        invariant
            side <= 2,
            i <= rels@.len(),
            keys_distinct(index@),
            index_map(index@) == expected_index(rels@, side as nat, i as int),
        decreases rels.len() - i,
    {
        let r = &rels[i];
        let ghost before = index_map(index@);
        if side == 0 || side == 2 {
            add_position(&mut index, &r.source_id, i);
        }
        if side == 1 || side == 2 {
            add_position(&mut index, &r.target_id, i);
        }
        proof {
            let goal = expected_index(rels@, side as nat, i + 1);
            assert forall|k: Seq<char>| #[trigger] positions(rels@, k, side as nat, i + 1) == positions(
                rels@,
                k,
                side as nat,
                i as int,
            ) + ends_listed(rels@[i as int], k, i, side as nat) by {}
            assert forall|k: Seq<char>| #[trigger] index_map(index@).dom().contains(k) == goal.dom().contains(k) by {}
            assert forall|k: Seq<char>| #[trigger] goal.dom().contains(k) implies index_map(index@)[k] == goal[k] by {
                if side == 2 && r.source_id@ == k && r.target_id@ == k {
                    assert(positions(rels@, k, 2, i + 1) =~= positions(rels@, k, 2, i as int).push(i).push(i));
                } else if side == 2 && r.source_id@ == k {
                    assert(positions(rels@, k, 2, i + 1) =~= positions(rels@, k, 2, i as int).push(i));
                } else if side == 2 && r.target_id@ == k {
                    assert(positions(rels@, k, 2, i + 1) =~= positions(rels@, k, 2, i as int).push(i));
                } else if side == 0 && r.source_id@ == k {
                    assert(positions(rels@, k, 0, i + 1) =~= positions(rels@, k, 0, i as int).push(i));
                } else if side == 1 && r.target_id@ == k {
                    assert(positions(rels@, k, 1, i + 1) =~= positions(rels@, k, 1, i as int).push(i));
                } else {
                    assert(positions(rels@, k, side as nat, i + 1) =~= positions(rels@, k, side as nat, i as int));
                }
            }
            assert(index_map(index@) =~= goal);
        }
        i = i + 1;
    }
    index
}

impl SemanticMemory {
    /// Indexes the relationships by source, by target, and by either end.
    pub fn rebuild_relationships_index(&self) -> (r: RelationshipIndex)
        ensures
            keys_distinct(r.source_index@),
            keys_distinct(r.target_index@),
            keys_distinct(r.bidirectional_index@),
            index_map(r.source_index@) == expected_index(self.relationships@, 0, self.relationships@.len() as int),
            index_map(r.target_index@) == expected_index(self.relationships@, 1, self.relationships@.len() as int),
            index_map(r.bidirectional_index@) == expected_index(
                self.relationships@,
                2,
                self.relationships@.len() as int,
            ),
    {
        RelationshipIndex {
            source_index: index_by(&self.relationships, 0),
            target_index: index_by(&self.relationships, 1),
            bidirectional_index: index_by(&self.relationships, 2),
        }
    }
}

} // verus!
