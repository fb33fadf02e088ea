use vstd::prelude::*;

use super::origin::Origin;
use super::ValueId;

verus! {

/// A detached, `Copy` name for a recorded value: the currency of every
/// phase after recording.
///
/// A symbol carries no tape borrow and no payload; it is an origin plus
/// a node position, valid across threads and across reopen round trips,
/// since linear extension never moves a recorded node. The origin
/// participates in equality and hashing, so equally positioned nodes
/// from unrelated graphs do not compare equal.
#[derive(Debug, Clone, Copy, PartialEq, Eq, Hash, Structural)]
pub struct Symbol {
    /// The family the named node belongs to.
    pub origin: Origin,
    /// The node's position on its tape.
    pub id: ValueId,
}

impl Symbol {
    /// Names the node at `id` of the `origin` family.
    pub fn new(origin: Origin, id: ValueId) -> (symbol: Symbol)
        ensures
            symbol.origin == origin,
            symbol.id == id,
    {
        Symbol { origin, id }
    }

    /// Returns the position of the named node on its tape: the number a
    /// spec dump prints for the node and its operands. Nodes never move,
    /// so the position is stable for the life of the family.
    ///
    /// The position is meaningful only within one family.
    pub fn index(self) -> (index: usize)
        ensures
            index == self.id.0,
    {
        self.id.index()
    }
}

} // verus!
