//! A document-transformation library: JSON-like document trees, aliasable
//! views into a shared root, and a pipeline that feeds documents to an
//! embedded script one at a time, collecting what the script emits.

pub mod binding;
pub mod convert;
pub mod laws;
pub mod ops;
pub mod path;
pub mod pipeline;
pub mod store;
pub mod value;

use vstd::prelude::*;

verus! {

/// Faults raised by view resolution and mutation.
#[derive(Clone, Copy, Debug, PartialEq, Eq, Structural)]
pub enum Fault {
    /// Overlapping mutable/immutable access to the same root.
    BorrowConflict,
    /// A view's path no longer resolves against its root.
    PathResolutionFailure,
    /// A string-keyed write aimed at a node that is not an object.
    InvalidWrite,
}

} // verus!
