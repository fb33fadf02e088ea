//! The operand links of one recorded node, stored inline in `smallvec`'s
//! `SmallVec<[ValueId; 2]>` and read through a named contents view.

use smallvec::SmallVec;
use vstd::prelude::*;

use super::ValueId;

verus! {

/// The operand links of one recorded node, in the operation's positional
/// order: one entry of the tape's operands column. The links are stored
/// inline up to the arity of every operation, so scanning the column
/// stays free of pointer chasing.
#[verifier::external_body]
#[derive(Debug)]
pub struct Operands {
    inner: SmallVec<[ValueId; 2]>,
}

/// The links an [`Operands`] list holds, in order.
pub uninterp spec fn operand_links(list: Operands) -> Seq<ValueId>;

impl View for Operands {
    type V = Seq<ValueId>;

    open spec fn view(&self) -> Seq<ValueId> {
        operand_links(*self)
    }
}

impl Operands {
    /// Creates the empty operand list of a source node through
    /// `SmallVec::new`, which holds no element.
    #[verifier::external_body]
    pub(crate) fn none() -> (list: Operands)
        ensures
            operand_links(list) == Seq::<ValueId>::empty(),
    {
        Operands { inner: SmallVec::new() }
    }

    /// Creates the list holding `links` through `SmallVec::from_slice`,
    /// which copies the slice's elements in their order.
    #[verifier::external_body]
    pub(crate) fn from_slice(links: &[ValueId]) -> (list: Operands)
        ensures
            operand_links(list) == links@,
    {
        Operands { inner: SmallVec::from_slice(links) }
    }

    /// Returns the links as a positional slice through
    /// `SmallVec::as_slice`, the slice of every element in order.
    #[verifier::external_body]
    pub(crate) fn as_slice(&self) -> (links: &[ValueId])
        ensures
            links@ == operand_links(*self),
    {
        self.inner.as_slice()
    }
}

} // verus!
