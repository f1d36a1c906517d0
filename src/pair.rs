//! The directed pair "giver gives to receiver", over any kind of identifier.
use vstd::prelude::*;

verus! {

/// An ordered pair: `giver` gives to `receiver`. Equality depends on both
/// fields, in order.
#[derive(Debug, Clone, PartialEq, Eq, Hash)]
pub struct Pair<T> {
    pub giver: T,
    pub receiver: T,
}

impl<T> Pair<T> {
    /// The pair in which `x` gives to `y`.
    pub fn new(x: T, y: T) -> (r: Self)
        ensures
            r.giver == x,
            r.receiver == y,
    {
        Pair { giver: x, receiver: y }
    }
}

} // verus!
