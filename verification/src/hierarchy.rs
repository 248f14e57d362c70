//! Parent/child hierarchy errors.

use vstd::prelude::*;

verus! {

/// Error type for hierarchy operations
#[derive(Debug, Clone, PartialEq, Eq, Structural)]
pub enum HierarchyError {
    /// One or both entities don't exist in the world
    InvalidEntity,
    /// Adding this child would create a cycle in the hierarchy
    CyclicHierarchy,
    /// The entity is already a child of the specified parent
    AlreadyChild,
}

/// The human-readable description of each hierarchy error.
pub open spec fn hierarchy_error_text(e: HierarchyError) -> Seq<char> {
    match e {
        HierarchyError::InvalidEntity => "one or both entities do not exist"@,
        HierarchyError::CyclicHierarchy => "adding this child would create a cycle"@,
        HierarchyError::AlreadyChild => "entity is already a child of this parent"@,
    }
}

impl HierarchyError {
    /// The human-readable description of this error (what `Display` prints).
    pub fn message(&self) -> (r: &'static str)
        ensures
            r@ == hierarchy_error_text(*self),
    {
        match self {
            HierarchyError::InvalidEntity => "one or both entities do not exist",
            HierarchyError::CyclicHierarchy => "adding this child would create a cycle",
            HierarchyError::AlreadyChild => "entity is already a child of this parent",
        }
    }
}

} // verus!
