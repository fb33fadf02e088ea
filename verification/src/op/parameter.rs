use vstd::prelude::*;

use super::slot::SlotId;

verus! {

/// A learnable parameter: a leaf whose payload a training step
/// replaces. The node holds only its slot; the payload lives in the
/// parameter slot store.
#[derive(Debug, Clone, Copy, PartialEq, Eq, Structural)]
pub struct Parameter(pub SlotId);

} // verus!
