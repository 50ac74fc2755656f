//! The random source: raw draws from the process-wide generator, and their
//! reduction to a bounded range.

use vstd::prelude::*;

verus! {

/// Relies on `rand::random::<usize>`: a draw from the thread-local generator
/// seeded from the operating system. Nothing is promised of its value.
#[verifier::external_body]
pub(crate) fn random_usize() -> (r: usize) {
    rand::random::<usize>()
}

/// The number that a raw draw selects among the `e` values from `s` on.
pub fn bounded_draw(raw: usize, s: usize, e: usize) -> (r: usize)
    requires
        e > 0,
        s + e <= usize::MAX,
    ensures
        r == raw % e + s,
        s <= r < s + e,
{
    raw % e + s
}

/// A random number among the `e` values from `s` on (`s` to `s + e - 1`).
pub fn random_num(s: usize, e: usize) -> (r: usize)
    requires
        e > 0,
        s + e <= usize::MAX,
    ensures
        s <= r < s + e,
{
    bounded_draw(random_usize(), s, e)
}

} // verus!
