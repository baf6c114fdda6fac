//! Why a document is refused before any of it is flattened.

use vstd::prelude::*;

verus! {

/// The reasons for which flattening is refused.
#[derive(Debug, Clone, Copy, PartialEq, Eq, Structural)]
pub enum FlattenError {
    /// The root of the document is not an object.
    InvalidInput,
    /// The document nests containers more deeply than the caller allows.
    DepthExceeded,
}

} // verus!
