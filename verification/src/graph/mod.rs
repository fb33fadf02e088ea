//! The spec's naming and state machinery: the family token, detached
//! symbols, the kinship check, and the slot stores beside the graph.

use vstd::prelude::*;

pub mod composite;
pub mod detach;
pub mod express;
pub mod kinship;
pub mod network;
pub mod opcode;
pub mod operands;
pub mod origin;
pub mod slot_store;
pub mod symbol;
pub mod tape;
pub mod value;
pub mod vjp;

verus! {

/// The position of a recorded node on its tape: nodes are appended and
/// never move, so a position names its node for the life of the
/// family.
#[derive(Debug, Clone, Copy, PartialEq, Eq, Hash, Structural)]
pub struct ValueId(pub usize);

impl ValueId {
    /// Returns the node's position on its tape.
    pub fn index(self) -> (index: usize)
        ensures
            index == self.0,
    {
        self.0
    }
}

} // verus!
