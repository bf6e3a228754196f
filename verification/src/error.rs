//! The error taxonomy of the storage core.

use vstd::prelude::*;

verus! {

/// Why a storage or dispatch operation was refused.
///
/// Absence is an expected, locally handled outcome; the other two signal a
/// defect in the calling system and are reported loudly instead of being
/// absorbed.
#[derive(Clone, Copy, Debug, PartialEq, Eq, Structural)]
pub enum EcsError {
    /// The requested kind, resource, column or table is not present.
    Absent,
    /// The request violates the shared/exclusive discipline on a column or
    /// resource, or a release does not match an outstanding borrow.
    BorrowConflict,
    /// A value's kind does not match the declared kind of its destination, or
    /// a row does not match its archetype's declared column list.
    SchemaViolation,
}

} // verus!
