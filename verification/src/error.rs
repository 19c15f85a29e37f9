//! The error kinds a query can surface. Mutation never fails; only the
//! read/query paths are fallible.

use vstd::prelude::*;

verus! {

/// Why a lookup could not be answered.
#[derive(Clone, Copy, PartialEq, Eq, Debug)]
pub enum TfError {
    /// No chain of recorded relationships connects the two frames (or an
    /// empty static sample buffer was queried directly).
    CouldNotFindTransform,
    /// The queried time precedes every stored sample on some relationship
    /// along the path.
    AttemptedLookupInPast,
    /// The queried time follows every stored sample on some relationship
    /// along the path.
    AttemptedLookupInFuture,
    /// The adjacency information named a relationship with no backing sample
    /// buffer. The store's representation keeps the two in one structure, so
    /// this cannot arise from it; the kind is kept as a typed, recoverable
    /// surface for the invariant, rather than an abort.
    InternalInconsistency,
}

impl TfError {
    /// A short name for the error, for callers that print one.
    pub fn describe(&self) -> (r: &'static str)
        ensures
            r@ == match *self {
                TfError::CouldNotFindTransform => "could not find transform"@,
                TfError::AttemptedLookupInPast => "attempted lookup in past"@,
                TfError::AttemptedLookupInFuture => "attempted lookup in future"@,
                TfError::InternalInconsistency => "internal inconsistency"@,
            },
    {
        match *self {
            TfError::CouldNotFindTransform => "could not find transform",
            TfError::AttemptedLookupInPast => "attempted lookup in past",
            TfError::AttemptedLookupInFuture => "attempted lookup in future",
            TfError::InternalInconsistency => "internal inconsistency",
        }
    }
}

} // verus!
