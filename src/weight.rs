//! Weights: what a match yields.
use vstd::prelude::*;

verus! {

/// Information extracted from a match: a weighted semiring whose "zero" is
/// `None`.
///
/// `success` is "one", `concat` is "multiply" and `merge` is "add". The engine
/// only ever combines non-zero weights.
///
/// The spec functions `one`, `times` and `plus` say what the three operations
/// compute; an implementation checked by Verus defines them, and the contracts
/// of its operations hold it to them. Their default leaves the value
/// unspecified, for implementations outside verified code.
pub trait Weight: Sized {
    /// The weight a match attempt starts with.
    open spec fn one() -> Self {
        arbitrary()
    }

    /// `self` followed by `other` along one path; `None` when the two cannot
    /// hold together.
    open spec fn times(&self, other: &Self) -> Option<Self> {
        arbitrary()
    }

    /// `self`, from a higher-priority alternative, combined with `other`, from a
    /// lower-priority alternative on the same input.
    open spec fn plus(&self, other: Self) -> Self {
        arbitrary()
    }

    /// The initial weight to use before matching begins.
    fn success() -> (r: Self)
        ensures
            r == Self::one(),
    ;

    /// How to combine weights when `self` is the result of one successful
    /// match that is followed by another successful match returning `other`.
    /// Even though both matches succeeded, they might not be valid together,
    /// so their concatenation may fail.
    fn concat(&self, other: &Self) -> (r: Option<Self>)
        ensures
            r == self.times(other),
    ;

    /// How to combine weights when `self` is the successful result of a
    /// higher-priority alternative and `other` that of a lower-priority
    /// alternative on the same input. Both succeeded, so the merge cannot
    /// fail; it may ignore either side.
    fn merge(&mut self, other: Self)
        ensures
            *final(self) == old(self).plus(other),
    ;
}

/// The trivial weight, which only records whether the input matched.
impl Weight for () {
    open spec fn one() -> Self {
        ()
    }

    open spec fn times(&self, other: &Self) -> Option<Self> {
        Some(())
    }

    open spec fn plus(&self, other: Self) -> Self {
        ()
    }

    fn success() -> (r: Self) {
        ()
    }

    fn concat(&self, other: &Self) -> (r: Option<Self>) {
        Some(())
    }

    fn merge(&mut self, other: Self) {
    }
}

/// The priority-respecting combination of two optional completed-match
/// weights, `a` being the higher-priority one: a present weight wins over an
/// absent one, and two present weights are merged with `a` as `self`.
pub open spec fn merged<W: Weight>(a: Option<W>, b: Option<W>) -> Option<W> {
    match (a, b) {
        (None, None) => None,
        (Some(a), None) => Some(a),
        (None, Some(b)) => Some(b),
        (Some(a), Some(b)) => Some(a.plus(b)),
    }
}

/// Folds two optional completed-match weights by priority, `a` first.
pub fn merge<W: Weight>(a: Option<W>, b: Option<W>) -> (r: Option<W>)
    ensures
        r == merged(a, b),
{
    match (a, b) {
        (None, None) => None,
        (Some(a), None) => Some(a),
        (None, Some(b)) => Some(b),
        (Some(mut a), Some(b)) => {
            a.merge(b);
            Some(a)
        },
    }
}

} // verus!
