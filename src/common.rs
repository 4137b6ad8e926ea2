use vstd::prelude::*;

verus! {

/// Identifier of a node; addresses are handed out densely from the querier (0).
pub type Address = usize;

/// How far `increment` moves: the given offset, or one place by default.
pub open spec fn step_of(offset: Option<usize>) -> int {
    match offset {
        Some(k) => k as int,
        None => 1,
    }
}

/// Addresses that can be moved forward by an offset.
pub trait Incrementable {
    /// The address as a mathematical integer.
    spec fn place(&self) -> int;

    /// The address `offset` places further on (one place when no offset is given).
    fn increment(&self, offset: Option<usize>) -> (r: Address)
        requires
            self.place() + step_of(offset) <= usize::MAX,
        ensures
            r as int == self.place() + step_of(offset),
    ;
}

impl Incrementable for Address {
    open spec fn place(&self) -> int {
        *self as int
    }

    fn increment(&self, offset: Option<usize>) -> (r: Address) {
        match offset {
            Some(k) => *self + k,
            None => *self + 1,
        }
    }
}

} // verus!
