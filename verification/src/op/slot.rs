use vstd::prelude::*;

verus! {

/// A lightweight handle to a payload's slot in a dense state store.
///
/// Slots are assigned in allocation order and never move: the
/// store-side mirror of a node position, used by parameters and inputs.
#[derive(Debug, Clone, Copy, PartialEq, Eq, Hash, Structural)]
pub struct SlotId(usize);

impl SlotId {
    /// Creates a slot for `index` in its store.
    pub fn new(index: usize) -> (slot: SlotId)
        ensures
            slot.index_spec() == index,
            slot == SlotId::new_spec(index),
    {
        SlotId(index)
    }

    /// The slot at `index`.
    pub closed spec fn new_spec(index: usize) -> SlotId {
        SlotId(index)
    }

    /// A slot is its position: equal positions are equal slots, and the
    /// slot at `index` sits at `index`.
    pub proof fn lemma_index_determines(a: SlotId, b: SlotId)
        ensures
            (a.index_spec() == b.index_spec()) == (a == b),
            SlotId::new_spec(a.index_spec()) == a,
            SlotId::new_spec(a.index_spec()).index_spec() == a.index_spec(),
    {
    }

    /// The position of the slot in its store.
    pub closed spec fn index_spec(self) -> usize {
        self.0
    }

    /// Returns the position of the slot in its store.
    pub fn index(self) -> (index: usize)
        ensures
            index == self.index_spec(),
    {
        self.0
    }
}

} // verus!
