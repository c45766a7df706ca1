//! Checking a memory's consistency and dropping relationships that name missing items.

use vstd::prelude::*;
use crate::batch::ends_among;
use crate::error::MemoryError;
use crate::item::{SemanticItem, SemanticItemConverter};
use crate::memory::{item_ids, well_formed_parts, SemanticMemory};
use crate::relationship::SemanticRelationship;
use crate::seqs::{lemma_filter_step, lemma_take_full};
use crate::text::{join2, join3, owned};
use vstd::string::StringExecFns;

verus! {

/// A problem found by a check: whether it is a validation error (else a conversion
/// error), and its message.
pub type Problem = (bool, Seq<char>);

/// What is wrong with `r` in a memory with `items`, if anything: a missing source, a
/// missing target, then an empty id or end.
pub open spec fn rel_problem(items: Seq<SemanticItem>, r: SemanticRelationship) -> Option<Problem> {
    if !item_ids(items).contains(r.source_id@) {
        Some((true, "Relationship '"@ + r.id@ + "' references non-existent source item '"@ + r.source_id@ + "'"@))
    } else if !item_ids(items).contains(r.target_id@) {
        Some((true, "Relationship '"@ + r.id@ + "' references non-existent target item '"@ + r.target_id@ + "'"@))
    } else if !(r.id@.len() > 0 && r.source_id@.len() > 0 && r.target_id@.len() > 0) {
        Some((true, "Relationship id and ends cannot be empty"@))
    } else {
        None
    }
}

/// What is wrong with an item, if anything: an empty id, an empty category, then an
/// update before its creation.
pub open spec fn item_problem(it: SemanticItem) -> Option<Problem> {
    if it.id@.len() == 0 {
        Some((false, "SemanticItem ID cannot be empty"@))
    } else if it.category@.len() == 0 {
        Some((false, "SemanticItem category cannot be empty"@))
    } else if it.updated_at < it.created_at {
        Some((false, "SemanticItem updated_at cannot be before created_at"@))
    } else {
        None
    }
}

/// The first problem among the relationships, in order.
pub open spec fn first_rel_problem(items: Seq<SemanticItem>, rels: Seq<SemanticRelationship>) -> Option<Problem>
    decreases rels.len(),
{
    if rels.len() == 0 {
        None
    } else {
        match rel_problem(items, rels[0]) {
            Some(p) => Some(p),
            None => first_rel_problem(items, rels.drop_first()),
        }
    }
}

/// The first problem among the items, in order.
pub open spec fn first_item_problem(items: Seq<SemanticItem>) -> Option<Problem>
    decreases items.len(),
{
    if items.len() == 0 {
        None
    } else {
        match item_problem(items[0]) {
            Some(p) => Some(p),
            None => first_item_problem(items.drop_first()),
        }
    }
}

/// The kind and message of an error.
pub open spec fn problem_of(e: MemoryError) -> Problem {
    match e {
        MemoryError::ValidationError(m) => (true, m@),
        MemoryError::ConversionError(m) => (false, m@),
    }
}

impl SemanticItem {
    /// Checks the item's own fields as [`SemanticItemConverter::validate_item`] does.
    pub fn validate(&self) -> (r: Result<(), MemoryError>)
        ensures
            r is Ok <==> item_problem(*self) is None,
            r is Err ==> item_problem(*self) == Some(problem_of(r->Err_0)),
    {
        SemanticItemConverter::validate_item(self)
    }
}

impl SemanticMemory {
    /// Checks the relationships in order (both ends must be items, then the
    /// relationship's own fields), then the items in order; the first problem found is
    /// the error.
    pub fn validate(&self) -> (r: Result<(), MemoryError>)
        ensures
            r is Ok <==> first_rel_problem(self.items@, self.relationships@) is None && first_item_problem(self.items@) is None,
            r is Err ==> Some(problem_of(r->Err_0)) == (match first_rel_problem(self.items@, self.relationships@) {
                Some(p) => Some(p),
                None => first_item_problem(self.items@),
            }),
    {
        let ghost items = self.items@;
        let ghost rels = self.relationships@;
        let mut i: usize = 0;
        assert(rels.skip(0) =~= rels);
        while i < self.relationships.len()
            invariant
                items == self.items@,
                rels == self.relationships@,
                i <= rels.len(),
                first_rel_problem(items, rels) == first_rel_problem(items, rels.skip(i as int)),
            decreases rels.len() - i,
        {
            let rel = &self.relationships[i];
            proof {
                let rest = rels.skip(i as int);
                assert(rest[0] == rels[i as int]);
                assert(rest.drop_first() =~= rels.skip(i + 1));
            }
            if crate::memory::find_item(&self.items, rel.source_id.as_str()).is_none() {
                let msg = join3("Relationship '", rel.id.as_str(), "' references non-existent source item '");
                let msg = join2(msg.as_str(), rel.source_id.as_str());
                let msg = join2(msg.as_str(), "'");
                proof {
                    reveal_strlit("'");
                }
                return Err(MemoryError::ValidationError(msg));
            }
            if crate::memory::find_item(&self.items, rel.target_id.as_str()).is_none() {
                let msg = join3("Relationship '", rel.id.as_str(), "' references non-existent target item '");
                let msg = join2(msg.as_str(), rel.target_id.as_str());
                let msg = join2(msg.as_str(), "'");
                return Err(MemoryError::ValidationError(msg));
            }
            match rel.validate() {
                Ok(()) => {},
                Err(e) => {
                    return Err(e);
                },
            }
            i = i + 1;
        }
        let mut k: usize = 0;
        assert(items.skip(0) =~= items);
        while k < self.items.len()
            invariant
                items == self.items@,
                rels == self.relationships@,
                first_rel_problem(items, rels) is None,
                k <= items.len(),
                first_item_problem(items) == first_item_problem(items.skip(k as int)),
            decreases items.len() - k,
        {
            proof {
                let rest = items.skip(k as int);
                assert(rest[0] == items[k as int]);
                assert(rest.drop_first() =~= items.skip(k + 1));
            }
            match self.items[k].validate() {
                Ok(()) => {},
                Err(e) => {
                    return Err(e);
                },
            }
            k = k + 1;
        }
        Ok(())
    }

    /// Drops the relationships whose source or target is not an item of the memory and
    /// gives how many were dropped.
    pub fn compact(&mut self) -> (r: usize)
        ensures
            final(self).relationships@ == old(self).relationships@.filter(ends_among(item_ids(old(self).items@))),
            r == old(self).relationships@.len() - final(self).relationships@.len(),
            final(self).items@ == old(self).items@,
            final(self).base == old(self).base,
            old(self).well_formed() ==> final(self).well_formed(),
            forall|k: int| 0 <= k < final(self).relationships@.len() ==> ends_among(item_ids(final(self).items@))(
                #[trigger] final(self).relationships@[k],
            ),
    {
        let ghost rels = self.relationships@;
        let ghost p = ends_among(item_ids(self.items@));
        let initial = self.relationships.len();
        let mut taken: Vec<SemanticRelationship> = Vec::new();
        std::mem::swap(&mut taken, &mut self.relationships);
        let mut rest = taken;
        let mut kept: Vec<SemanticRelationship> = Vec::new();
        let n = rest.len();
        let mut i: usize = 0;
        while i < n
            invariant
                n == rels.len(),
                i <= n,
                rest@ == rels.skip(i as int),
                kept@ == rels.take(i as int).filter(p),
                p == ends_among(item_ids(self.items@)),
                self.items@ == old(self).items@,
                self.base == old(self).base,
            decreases n - i,
        {
            proof {
                lemma_filter_step(rels, i as int, p);
            }
            assert(rest@.len() > 0);
            let r = rest.remove(0);
            assert(rest@ =~= rels.skip(i + 1));
            let s_in = crate::memory::find_item(&self.items, r.source_id.as_str()).is_some();
            let t_in = crate::memory::find_item(&self.items, r.target_id.as_str()).is_some();
            if s_in && t_in {
                kept.push(r);
            }
            i = i + 1;
        }
        proof {
            lemma_take_full(rels);
            crate::seqs::lemma_filter_members(rels, p);
            rels.lemma_filter_len(p);
        }
        self.relationships = kept;
        proof {
            let rs = self.relationships@;
            if well_formed_parts(old(self).items@, rels) {
                assert forall|a: int, b: int| 0 <= a < b < rs.len() implies rs[a].id@ != rs[b].id@ by {
                    crate::seqs::lemma_filter_subsequence(rels, p, a, b);
                }
            }
            assert forall|k: int| 0 <= k < rs.len() implies ends_among(item_ids(self.items@))(#[trigger] rs[k]) by {
                assert(p(rs[k]));
            }
        }
        initial - self.relationships.len()
    }
}

} // verus!
