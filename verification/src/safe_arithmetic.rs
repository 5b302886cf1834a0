//! Overflow-aware arithmetic on `usize`: each operation either yields the exact
//! mathematical result or reports that it did not fit.
use vstd::prelude::*;

verus! {

/// Adds `a` and `b`. Returns the sum and `true` when it fits in a `usize`,
/// otherwise `(usize::MAX, false)`.
pub fn add(a: usize, b: usize) -> (r: (usize, bool))
    ensures
        a + b <= usize::MAX ==> r == (((a + b) as usize, true)),
        a + b > usize::MAX ==> r == ((usize::MAX, false)),
{
    match a.checked_add(b) {
        Some(result) => (result, true),
        None => (usize::MAX, false),
    }
}

/// Subtracts `b` from `a`. Returns the difference and `true` when `b <= a`,
/// otherwise `(0, false)`.
pub fn subtract(a: usize, b: usize) -> (r: (usize, bool))
    ensures
        b <= a ==> r == (((a - b) as usize, true)),
        b > a ==> r == ((0usize, false)),
{
    match a.checked_sub(b) {
        Some(result) => (result, true),
        None => (0, false),
    }
}

/// Multiplies `a` and `b`. Returns the product and `true` when it fits in a
/// `usize`, otherwise `(usize::MAX, false)`.
pub fn multiply(a: usize, b: usize) -> (r: (usize, bool))
    ensures
        a * b <= usize::MAX ==> r == (((a * b) as usize, true)),
        a * b > usize::MAX ==> r == ((usize::MAX, false)),
{
    match a.checked_mul(b) {
        Some(result) => (result, true),
        None => (usize::MAX, false),
    }
}

/// The sum of `a` and `b`, clamped to `usize::MAX`.
pub open spec fn spec_saturating_add(a: usize, b: usize) -> usize {
    if a + b > usize::MAX {
        usize::MAX
    } else {
        (a + b) as usize
    }
}

/// Adds `a` and `b`, clamping the result at `usize::MAX`.
pub fn saturating_add(a: usize, b: usize) -> (r: usize)
    ensures
        r == spec_saturating_add(a, b),
{
    a.saturating_add(b)
}

/// Subtracts `b` from `a`, clamping the result at `0`.
pub fn saturating_subtract(a: usize, b: usize) -> (r: usize)
    ensures
        r == (if b <= a { (a - b) as usize } else { 0usize }),
{
    a.saturating_sub(b)
}

} // verus!
