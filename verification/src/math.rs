//! Ordering helpers over any partially ordered type.
//!
//! The renderer works with floating-point values, whose `NaN` makes the
//! order partial; these helpers mirror how the comparison operators treat
//! an unordered pair (the second operand wins).

use vstd::prelude::*;
use vstd::std_specs::cmp::PartialOrdSpec;
use core::cmp::Ordering;

verus! {

/// What `partial_min` returns, for types whose comparison operators obey
/// their specification.
pub open spec fn spec_partial_min<T: PartialOrd>(a: T, b: T) -> T {
    if a.partial_cmp_spec(&b) == Some(Ordering::Less) {
        a
    } else {
        b
    }
}

/// What `partial_max` returns, for types whose comparison operators obey
/// their specification.
pub open spec fn spec_partial_max<T: PartialOrd>(a: T, b: T) -> T {
    if a.partial_cmp_spec(&b) == Some(Ordering::Greater) {
        a
    } else {
        b
    }
}

/// The smaller of `a` and `b`; `b` when the two are unordered.
pub fn partial_min<T: PartialOrd>(a: T, b: T) -> (r: T)
    ensures
        r == a || r == b,
        T::obeys_partial_cmp_spec() ==> r == spec_partial_min(a, b),
{
    if a < b {
        a
    } else {
        b
    }
}

/// The larger of `a` and `b`; `b` when the two are unordered.
pub fn partial_max<T: PartialOrd>(a: T, b: T) -> (r: T)
    ensures
        r == a || r == b,
        T::obeys_partial_cmp_spec() ==> r == spec_partial_max(a, b),
{
    if a > b {
        a
    } else {
        b
    }
}

/// `value` forced into `[low, high]`: the result of taking the larger of
/// `value` and `low`, then the smaller of that and `high`.
pub fn clamp<T: PartialOrd>(value: T, low: T, high: T) -> (r: T)
    ensures
        r == value || r == low || r == high,
        T::obeys_partial_cmp_spec() ==> r == spec_partial_min(
            spec_partial_max(value, low),
            high,
        ),
{
    partial_min(partial_max(value, low), high)
}

} // verus!
