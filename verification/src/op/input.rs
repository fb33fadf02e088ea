use vstd::prelude::*;

use super::slot::SlotId;

verus! {

/// A declared per-run input: a leaf whose payload is supplied when a
/// run starts, falling back to a recorded default held in the input
/// slot store. The node holds only its slot.
#[derive(Debug, Clone, Copy, PartialEq, Eq, Structural)]
pub struct Input(pub SlotId);

} // verus!
