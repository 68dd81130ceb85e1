//! Steps: tests of a single input symbol.
use vstd::prelude::*;
use core::ops::RangeInclusive;
use crate::weight::Weight;

verus! {

/// A test of a single input symbol: `Some(weight)` when the symbol is
/// acceptable here, `None` otherwise.
///
/// A step is pure: its answer depends on the symbol alone. The spec function
/// `accepts` states that answer; an implementation checked by Verus defines
/// it, and its default leaves it unspecified.
pub trait Step<T, W> {
    /// The answer of this step on `input`.
    open spec fn accepts(&self, input: T) -> Option<W> {
        arbitrary()
    }

    fn step(&self, input: &T) -> (r: Option<W>)
        ensures
            r == self.accepts(*input),
    ;
}

/// `x` lies within the inclusive range `r`.
pub open spec fn in_range(r: RangeInclusive<u8>, x: u8) -> bool {
    &&& r@.start <= x
    &&& if r@.exhausted {
        x < r@.end
    } else {
        x <= r@.end
    }
}

/// An inclusive range of bytes accepts the bytes within it with the identity
/// weight.
impl<W: Weight> Step<u8, W> for RangeInclusive<u8> {
    open spec fn accepts(&self, input: u8) -> Option<W> {
        if in_range(*self, input) {
            Some(W::one())
        } else {
            None
        }
    }

    fn step(&self, input: &u8) -> (r: Option<W>) {
        if self.contains(input) {
            Some(W::success())
        } else {
            None
        }
    }
}

} // verus!
