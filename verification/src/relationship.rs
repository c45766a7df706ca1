//! Relationships: directed, typed links between two items.

use vstd::prelude::*;
use crate::confidence::ConfidenceLevel;
use crate::json::JsonValue;
use crate::text::str_eq;

verus! {

/// The kind of link a relationship expresses.
#[derive(Debug)]
pub enum SemanticRelationshipType {
    /// Subtype / instance-of.
    IsA,
    /// Ownership or composition from the whole's side.
    HasA,
    /// Composition from the part's side.
    PartOf,
    /// A loose association.
    RelatedTo,
    /// Causation.
    Causes,
    /// A named kind outside the built-in ones.
    Custom(String),
}

impl SemanticRelationshipType {
    /// A copy of the type.
    pub fn copy(&self) -> (r: SemanticRelationshipType)
        ensures
            same_relationship_type(r, *self),
    {
        match self {
            SemanticRelationshipType::IsA => SemanticRelationshipType::IsA,
            SemanticRelationshipType::HasA => SemanticRelationshipType::HasA,
            SemanticRelationshipType::PartOf => SemanticRelationshipType::PartOf,
            SemanticRelationshipType::RelatedTo => SemanticRelationshipType::RelatedTo,
            SemanticRelationshipType::Causes => SemanticRelationshipType::Causes,
            SemanticRelationshipType::Custom(n) => SemanticRelationshipType::Custom(n.clone()),
        }
    }
}

/// Two relationship types are the same kind (custom kinds compare by name).
pub open spec fn same_relationship_type(a: SemanticRelationshipType, b: SemanticRelationshipType) -> bool {
    match (a, b) {
        (SemanticRelationshipType::Custom(x), SemanticRelationshipType::Custom(y)) => x@ == y@,
        (SemanticRelationshipType::IsA, SemanticRelationshipType::IsA) => true,
        (SemanticRelationshipType::HasA, SemanticRelationshipType::HasA) => true,
        (SemanticRelationshipType::PartOf, SemanticRelationshipType::PartOf) => true,
        (SemanticRelationshipType::RelatedTo, SemanticRelationshipType::RelatedTo) => true,
        (SemanticRelationshipType::Causes, SemanticRelationshipType::Causes) => true,
        _ => false,
    }
}

/// A directed link from the item `source_id` to the item `target_id`.
#[derive(Debug)]
pub struct SemanticRelationship {
    /// Unique identifier of the relationship.
    pub id: String,
    /// Id of the item the link starts from.
    pub source_id: String,
    /// Id of the item the link points to.
    pub target_id: String,
    /// The kind of link.
    pub relationship_type: SemanticRelationshipType,
    /// How sure the memory is of the link.
    pub confidence: ConfidenceLevel,
    /// Creation time, milliseconds since the Unix epoch (UTC).
    pub created_at: i64,
    /// Last update time, milliseconds since the Unix epoch (UTC).
    pub updated_at: i64,
    /// Free-form metadata entries, in insertion order.
    pub metadata: Vec<(String, JsonValue)>,
}

/// The relationship touches the item `id` at either end.
pub open spec fn involves(r: SemanticRelationship, id: Seq<char>) -> bool {
    r.source_id@ == id || r.target_id@ == id
}

/// The item at the other end of `r` from `id`; the target when `id` is the source.
pub open spec fn other_end(r: SemanticRelationship, id: Seq<char>) -> Option<Seq<char>> {
    if r.source_id@ == id {
        Some(r.target_id@)
    } else if r.target_id@ == id {
        Some(r.source_id@)
    } else {
        None
    }
}

impl SemanticRelationship {
    /// A deep copy of the relationship.
    pub fn copy(&self) -> (r: SemanticRelationship)
        ensures
            r.id == self.id,
            r.source_id == self.source_id,
            r.target_id == self.target_id,
            same_relationship_type(r.relationship_type, self.relationship_type),
            r.confidence == self.confidence,
            r.created_at == self.created_at,
            r.updated_at == self.updated_at,
            crate::meta::meta_view(r.metadata@) == crate::meta::meta_view(self.metadata@),
    {
        SemanticRelationship {
            id: self.id.clone(),
            source_id: self.source_id.clone(),
            target_id: self.target_id.clone(),
            relationship_type: self.relationship_type.copy(),
            confidence: self.confidence,
            created_at: self.created_at,
            updated_at: self.updated_at,
            metadata: crate::meta::meta_copy(&self.metadata),
        }
    }

    /// Whether the relationship touches the item `item_id` at either end.
    pub fn involves_item(&self, item_id: &str) -> (r: bool)
        ensures
            r == involves(*self, item_id@),
    {
        str_eq(self.source_id.as_str(), item_id) || str_eq(self.target_id.as_str(), item_id)
    }

    /// The id at the other end from `item_id`, if the relationship touches it.
    pub fn get_other_item_id(&self, item_id: &str) -> (r: Option<&String>)
        ensures
            match other_end(*self, item_id@) {
                Some(o) => r is Some && r->0@ == o,
                None => r is None,
            },
    {
        if str_eq(self.source_id.as_str(), item_id) {
            Some(&self.target_id)
        } else if str_eq(self.target_id.as_str(), item_id) {
            Some(&self.source_id)
        } else {
            None
        }
    }

    /// Checks the relationship's own fields: its id and both ends must be non-empty.
    pub fn validate(&self) -> (r: Result<(), crate::error::MemoryError>)
        ensures
            r is Ok <==> (self.id@.len() > 0 && self.source_id@.len() > 0 && self.target_id@.len() > 0),
            r is Err ==> (r->Err_0 matches crate::error::MemoryError::ValidationError(m) && m@
                == "Relationship id and ends cannot be empty"@),
    {
        if self.id.as_str().is_empty() || self.source_id.as_str().is_empty()
            || self.target_id.as_str().is_empty() {
            Err(crate::error::MemoryError::ValidationError(
                crate::text::owned("Relationship id and ends cannot be empty"),
            ))
        } else {
            Ok(())
        }
    }
}

} // verus!
