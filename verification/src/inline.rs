//! The inline-through-rank-four axis row the layouts store their
//! strides in: `smallvec`'s `SmallVec<[usize; 4]>`, read through a
//! named contents view.

use smallvec::SmallVec;
use vstd::prelude::*;

verus! {

/// A row of axis-sized integers stored inline through rank 4, the
/// buffer a [`Layout`](crate::layout::Layout) keeps its strides in and
/// a permutation keeps its order in.
#[verifier::external_body]
#[derive(Debug)]
pub struct Strides {
    inner: SmallVec<[usize; 4]>,
}

/// The integers a [`Strides`] row holds, in order.
pub uninterp spec fn strides_items(row: Strides) -> Seq<usize>;

impl View for Strides {
    type V = Seq<usize>;

    open spec fn view(&self) -> Seq<usize> {
        strides_items(*self)
    }
}

impl Strides {
    /// Builds the row through `SmallVec::from_vec`, which moves the
    /// vector's elements into the row in their order: the row holds
    /// exactly `items`.
    #[verifier::external_body]
    pub(crate) fn from_vec(items: Vec<usize>) -> (row: Strides)
        ensures
            strides_items(row) == items@,
    {
        Strides { inner: SmallVec::from_vec(items) }
    }

    /// Reads the row through `SmallVec::as_slice`, the slice of every
    /// element in order: the slice holds exactly the row.
    #[verifier::external_body]
    pub(crate) fn as_slice(&self) -> (items: &[usize])
        ensures
            items@ == strides_items(*self),
    {
        self.inner.as_slice()
    }

    /// Writes `value` at `index` through `SmallVec`'s indexing, which
    /// reaches the element in place: the row is unchanged but for that
    /// entry.
    #[verifier::external_body]
    pub(crate) fn set(&mut self, index: usize, value: usize)
        requires
            index < strides_items(*old(self)).len(),
        ensures
            strides_items(*final(self)) == strides_items(*old(self)).update(index as int, value),
    {
        self.inner[index] = value;
    }

    /// Returns an independent row holding the same integers.
    pub(crate) fn duplicate(&self) -> (row: Strides)
        ensures
            row@ == self@,
    {
        let items = self.as_slice();
        let mut copied: Vec<usize> = Vec::new();
        let mut index: usize = 0;
        while index < items.len()
            invariant
                index <= items@.len(),
                copied@ == items@.subrange(0, index as int),
            decreases items@.len() - index,
        {
            copied.push(items[index]);
            index = index + 1;
            assert(copied@ =~= items@.subrange(0, index as int));
        }
        assert(copied@ =~= items@);
        Strides::from_vec(copied)
    }
}

} // verus!
