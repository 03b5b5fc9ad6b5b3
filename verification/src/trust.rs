//! Trust tags: where a value's data came from.
//!
//! A tag is one byte. [`TRUSTED`] marks data the program itself made, [`TAINTED`]
//! data that came from outside. Deriving a value from two others combines their
//! tags, and the combination is never cleaner than either input.

use vstd::prelude::*;

verus! {

/// Derived purely from data the program itself made.
pub const TRUSTED: u8 = 0;

/// Came from a model, the network, a file, a shell or standard input.
pub const TAINTED: u8 = 1;

/// The tag of a value derived from values tagged `a` and `b`.
pub open spec fn spec_combine(a: u8, b: u8) -> u8 {
    a | b
}

/// Combine two tags; the result is the stricter of the two.
pub fn combine(a: u8, b: u8) -> (r: u8)
    ensures
        r == spec_combine(a, b),
{
    a | b
}

/// Whether a tag says the data came from outside.
pub fn is_tainted(t: u8) -> (r: bool)
    ensures
        r == (t != TRUSTED),
{
    t != TRUSTED
}

/// Combining never launders: the result is trusted only when both inputs are.
pub proof fn combine_is_stricter(a: u8, b: u8)
    ensures
        spec_combine(a, b) == TRUSTED <==> a == TRUSTED && b == TRUSTED,
        spec_combine(a, b) >= a,
        spec_combine(a, b) >= b,
{
    assert(a | b == 0 <==> a == 0 && b == 0) by (bit_vector);
    assert(a | b >= a && a | b >= b) by (bit_vector);
}

/// Combining is commutative, associative and idempotent, with [`TRUSTED`] neutral.
pub proof fn combine_is_a_semilattice(a: u8, b: u8, c: u8)
    ensures
        spec_combine(a, b) == spec_combine(b, a),
        spec_combine(a, spec_combine(b, c)) == spec_combine(spec_combine(a, b), c),
        spec_combine(a, a) == a,
        spec_combine(a, TRUSTED) == a,
{
    assert(a | b == b | a && a | (b | c) == (a | b) | c && a | a == a && a | 0u8 == a)
        by (bit_vector);
}

} // verus!
