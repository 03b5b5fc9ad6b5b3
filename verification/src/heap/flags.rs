//! Flag bits of an object header.

use vstd::prelude::*;

verus! {

/// The object already stands in the collector's candidate-root set, so a further
/// release must not enqueue it again.
pub const BUFFERED: u8 = 1;

/// The object lives in a bump arena: it is not reference-counted and is reclaimed
/// only in bulk.
pub const ARENA: u8 = 2;

} // verus!
