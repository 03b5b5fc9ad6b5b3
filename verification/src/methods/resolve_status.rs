//! What resolving a method came to.

use vstd::prelude::*;

verus! {

/// The method was found.
pub const OK: i32 = 0;

/// The receiver is not a struct.
pub const NOT_A_STRUCT: i32 = 1;

/// The receiver's type has no such method.
pub const NO_SUCH_METHOD: i32 = 2;

} // verus!
