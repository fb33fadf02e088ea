//! How a payload's logical indices map onto its flat storage: shape,
//! per-axis strides and the offset of the first element.

use vstd::prelude::*;
use vstd::arithmetic::div_mod::{lemma_div_denominator, lemma_mod_breakdown, lemma_mod_bound, lemma_small_mod};
use vstd::arithmetic::mul::{lemma_mul_inequality, lemma_mul_is_commutative, lemma_mul_strictly_positive};

use crate::inline::Strides;
use crate::shape::{all_positive, fits, lemma_suffix_product_positive, prefix_product, suffix_product, volume_of, Shape};

verus! {

/// The coordinate along axis `k` of the logical row-major `position`.
pub open spec fn coordinate(axes: Seq<usize>, position: nat, k: int) -> nat {
    (position / suffix_product(axes, k + 1)) % (axes[k] as nat)
}

/// The flat-buffer distance the axes from `k` on contribute to the
/// element at logical `position`: the sum of coordinate times stride.
pub open spec fn address_from(axes: Seq<usize>, strides: Seq<usize>, position: nat, k: int) -> nat
    decreases axes.len() - k,
{
    if k < 0 || k >= axes.len() {
        0
    } else {
        coordinate(axes, position, k) * (strides[k] as nat) + address_from(axes, strides, position, k + 1)
    }
}

/// The furthest distance the axes from `k` on reach: the sum of
/// `(extent - 1) * stride`.
pub open spec fn reach_from(axes: Seq<usize>, strides: Seq<usize>, k: int) -> int
    decreases axes.len() - k,
{
    if k < 0 || k >= axes.len() {
        0
    } else {
        (axes[k] - 1) * strides[k] + reach_from(axes, strides, k + 1)
    }
}

/// Whether `strides` is the row-major contiguous stride row of `axes`
/// wherever a stride is ever applied: every axis of extent above one
/// strides by the product of the extents to its right.
pub open spec fn contiguous_on(axes: Seq<usize>, strides: Seq<usize>) -> bool {
    forall|k: int| 0 <= k < axes.len() && axes[k] != 1 ==> #[trigger] strides[k] == suffix_product(axes, k + 1)
}

/// The row-major strides of `axes`: each axis strides by the product of
/// the extents to its right.
pub open spec fn is_row_major(axes: Seq<usize>, strides: Seq<usize>) -> bool {
    &&& strides.len() == axes.len()
    &&& forall|k: int| 0 <= k < axes.len() ==> #[trigger] strides[k] == suffix_product(axes, k + 1)
}

/// The address terms of a position are each below their axis's reach.
pub proof fn lemma_address_bound(axes: Seq<usize>, strides: Seq<usize>, position: nat, k: int)
    requires
        0 <= k,
        strides.len() == axes.len(),
        all_positive(axes),
    ensures
        address_from(axes, strides, position, k) <= reach_from(axes, strides, k),
        reach_from(axes, strides, k) >= 0,
    decreases axes.len() - k,
{
    if k < axes.len() {
        lemma_address_bound(axes, strides, position, k + 1);
        assert(axes[k] > 0);
        lemma_suffix_product_positive(axes, k + 1);
        lemma_mod_bound((position / suffix_product(axes, k + 1)) as int, axes[k] as int);
        lemma_mul_inequality(coordinate(axes, position, k) as int, axes[k] - 1, strides[k] as int);
    }
}

/// Over a layout that is contiguous wherever a stride applies, the
/// address of `position` from axis `k` on is its remainder by the
/// suffix product: the mixed-radix digits recombine.
#[verifier::spinoff_prover]
pub proof fn lemma_contiguous_address(axes: Seq<usize>, strides: Seq<usize>, position: nat, k: int)
    requires
        0 <= k <= axes.len(),
        strides.len() == axes.len(),
        all_positive(axes),
        contiguous_on(axes, strides),
    ensures
        address_from(axes, strides, position, k) == position % suffix_product(axes, k),
    decreases axes.len() - k,
{
    if k == axes.len() {
        assert(position % 1 == 0) by {
            lemma_small_mod(0, 1);
            lemma_mod_bound(position as int, 1);
        }
    } else {
        lemma_contiguous_address(axes, strides, position, k + 1);
        let inner = suffix_product(axes, k + 1);
        let extent = axes[k] as nat;
        lemma_suffix_product_positive(axes, k + 1);
        assert(extent > 0);
        assert(suffix_product(axes, k) == extent * inner);
        let digit = (position / inner) % extent;
        assert(coordinate(axes, position, k) == digit);
        assert(address_from(axes, strides, position, k) == digit * (strides[k] as nat) + position % inner);
        lemma_mod_breakdown(position as int, inner as int, extent as int);
        lemma_mul_is_commutative(inner as int, extent as int);
        lemma_mul_is_commutative(inner as int, digit as int);
        if extent == 1 {
            lemma_mod_bound((position / inner) as int, 1);
            assert(digit == 0);
            vstd::arithmetic::mul::lemma_mul_basics_1(strides[k] as int);
            assert(digit * (strides[k] as nat) == 0);
        } else {
            assert(strides[k] == inner);
        }
    }
}

/// How a payload's logical indices map onto its flat storage: the
/// shape, the per-axis strides, and the offset of the first element.
///
/// The element at multi-index `(i0, ..., in)` lives at
/// `offset + sum(i_k * strides_k)` in the flat buffer. A row-major
/// contiguous layout has `strides_k = product(shape[k + 1 ..])` and
/// `offset = 0`. View operations (transpose, broadcast, reshape,
/// permute, narrow, unfold) produce a new layout over a shared buffer
/// without moving any element.
#[derive(Debug)]
pub struct Layout {
    shape: Shape,
    strides: Strides,
    offset: usize,
}

impl View for Layout {
    /// The shape, the strides, and the offset.
    type V = (Seq<usize>, Seq<usize>, nat);

    closed spec fn view(&self) -> (Seq<usize>, Seq<usize>, nat) {
        (self.shape@, self.strides@, self.offset as nat)
    }
}

/// Whether a layout pairs one stride with every axis.
pub open spec fn well_formed(layout: (Seq<usize>, Seq<usize>, nat)) -> bool {
    layout.1.len() == layout.0.len()
}

/// Whether a layout addresses a buffer: one stride per axis, positive
/// extents, and every addressed element's index representable.
pub open spec fn addressable(layout: (Seq<usize>, Seq<usize>, nat)) -> bool {
    &&& well_formed(layout)
    &&& all_positive(layout.0)
    &&& layout.2 + reach_from(layout.0, layout.1, 0) <= usize::MAX
}

/// The flat-buffer index of the logical row-major `position` under
/// `layout`.
pub open spec fn storage_address(layout: (Seq<usize>, Seq<usize>, nat), position: nat) -> nat {
    layout.2 + address_from(layout.0, layout.1, position, 0)
}

impl Layout {
    /// Returns the row-major strides of `shape`: each axis strides by the
    /// product of the extents to its right.
    fn contiguous_strides(shape: &Shape) -> (strides: Strides)
        requires
            fits(shape@),
        ensures
            is_row_major(shape@, strides@),
    {
        let axes = shape.axes();
        let mut strides: Vec<usize> = vec![0usize; axes.len()];
        let mut running: usize = 1;
        let mut axis = axes.len();
        while axis > 0
            invariant
                axes@ == shape@,
                fits(shape@),
                axis <= axes@.len(),
                strides@.len() == axes@.len(),
                running == suffix_product(axes@, axis as int),
                forall|k: int| axis <= k < axes@.len() ==> #[trigger] strides@[k] == suffix_product(axes@, k + 1),
            decreases axis,
        {
            axis = axis - 1;
            strides.set(axis, running);
            assert(suffix_product(axes@, axis as int) <= usize::MAX);
            running = axes[axis] * running;
        }
        Strides::from_vec(strides)
    }

    /// Creates the row-major contiguous layout of `shape`, starting at
    /// offset zero.
    pub fn contiguous(shape: Shape) -> (layout: Layout)
        requires
            fits(shape@),
        ensures
            layout@.0 == shape@,
            is_row_major(shape@, layout@.1),
            layout@.2 == 0,
    {
        let strides = Self::contiguous_strides(&shape);
        Layout { shape, strides, offset: 0 }
    }

    /// Returns the shape this layout addresses.
    pub fn shape(&self) -> (shape: &Shape)
        ensures
            shape@ == self@.0,
    {
        &self.shape
    }

    /// Returns the per-axis strides, parallel to the shape.
    pub fn strides(&self) -> (strides: &[usize])
        ensures
            strides@ == self@.1,
    {
        self.strides.as_slice()
    }

    /// Returns the flat-buffer index of the first logical element.
    pub fn offset(&self) -> (offset: usize)
        ensures
            offset == self@.2,
    {
        self.offset
    }

    /// Returns the number of axes.
    pub fn rank(&self) -> (rank: usize)
        ensures
            rank == self@.0.len(),
    {
        self.shape.rank()
    }

    /// Returns the number of logical elements.
    pub fn volume(&self) -> (volume: usize)
        requires
            fits(self@.0),
        ensures
            volume == volume_of(self@.0),
    {
        self.shape.volume()
    }

    /// Returns whether the layout addresses a contiguous row-major slice
    /// of the buffer starting at its offset.
    ///
    /// Extent-1 axes impose no constraint, since their stride is never
    /// used, while a stride-0 broadcast axis of extent above one is
    /// never contiguous.
    pub fn is_contiguous(&self) -> (contiguous: bool)
        requires
            well_formed(self@),
            fits(self@.0),
        ensures
            contiguous == contiguous_on(self@.0, self@.1),
    {
        let axes = self.shape.axes();
        let strides = self.strides.as_slice();
        let mut expected: usize = 1;
        let mut axis = axes.len();
        while axis > 0
            invariant
                axes@ == self@.0,
                strides@ == self@.1,
                strides@.len() == axes@.len(),
                fits(axes@),
                axis <= axes@.len(),
                expected == suffix_product(axes@, axis as int),
                forall|k: int| axis <= k < axes@.len() && axes@[k] != 1 ==> #[trigger] strides@[k] == suffix_product(axes@, k + 1),
            decreases axis,
        {
            axis = axis - 1;
            let extent = axes[axis];
            if extent != 1 && strides[axis] != expected {
                return false;
            }
            assert(suffix_product(axes@, axis as int) <= usize::MAX);
            expected = extent * expected;
        }
        true
    }

    /// Returns the flat-buffer index of the logical row-major `position`.
    ///
    /// It unravels `position` into a multi-index and applies the strides
    /// and offset. This is the general per-element address; a contiguous
    /// layout has a faster slice path.
    pub fn storage_index(&self, position: usize) -> (index: usize)
        requires
            addressable(self@),
        ensures
            index == storage_address(self@, position as nat),
    {
        address_of(self.shape.axes(), self.strides.as_slice(), self.offset, position)
    }
}

/// Returns `offset` plus the address of the logical row-major `position`
/// over `axes` and `strides`: the unravelled multi-index dotted with the
/// strides.
fn address_of(axes: &[usize], strides: &[usize], offset: usize, position: usize) -> (index: usize)
    requires
        addressable((axes@, strides@, offset as nat)),
    ensures
        index == storage_address((axes@, strides@, offset as nat), position as nat),
{
    let mut remainder = position;
    let mut index = offset;
    let mut axis = axes.len();
    proof {
        lemma_address_bound(axes@, strides@, position as nat, 0);
        assert(suffix_product(axes@, axes@.len() as int) == 1);
        vstd::arithmetic::div_mod::lemma_div_basics_2(position as int);
    }
    while axis > 0
        invariant
            addressable((axes@, strides@, offset as nat)),
            axis <= axes@.len(),
            remainder == position as nat / suffix_product(axes@, axis as int),
            index == offset + address_from(axes@, strides@, position as nat, axis as int),
        decreases axis,
    {
        axis = axis - 1;
        let extent = axes[axis];
        proof {
            assert(extent > 0);
            lemma_suffix_product_positive(axes@, axis + 1);
            lemma_div_denominator(position as int, suffix_product(axes@, axis + 1) as int, extent as int);
            lemma_mul_is_commutative(suffix_product(axes@, axis + 1) as int, extent as int);
            lemma_address_bound(axes@, strides@, position as nat, axis as int);
            lemma_reach_prefix_bound(axes@, strides@, axis as int);
            lemma_mod_bound(remainder as int, extent as int);
            lemma_mul_inequality((remainder % extent) as int, extent - 1, strides@[axis as int] as int);
        }
        index = index + (remainder % extent) * strides[axis];
        remainder = remainder / extent;
    }
    index
}


/// The shape `axes` with `axis` replaced by the `(count, size)` window
/// pair that sliding windows of `size` elements, one every `step`,
/// taking every `dilation`-th element, produce.
pub open spec fn window_count(extent: int, size: int, step: int, dilation: int) -> int {
    (extent - dilation * (size - 1) - 1) / step + 1
}

impl Layout {
    /// Returns the layout with its two axes swapped.
    ///
    /// Rank 0 and rank 1 are returned unchanged; a higher rank is a
    /// caller bug.
    pub fn transpose(&self) -> (transposed: Layout)
        requires
            well_formed(self@),
            self@.0.len() <= 2,
        ensures
            transposed@ == swap_axes(self@),
    {
        if self.rank() < 2 {
            return self.clone();
        }
        let axes = self.shape.axes();
        let strides = self.strides.as_slice();
        let shape = Shape::new(vec![axes[1], axes[0]]);
        let swapped = Strides::from_vec(vec![strides[1], strides[0]]);
        proof {
            assert(shape@ =~= seq![self@.0[1], self@.0[0]]);
            assert(swapped@ =~= seq![self@.1[1], self@.1[0]]);
        }
        Layout { shape, strides: swapped, offset: self.offset }
    }

    /// Returns the layout of this payload repeated along `axis` to fill
    /// `reference`: the current strides with a stride-0 axis inserted at
    /// `axis`.
    ///
    /// The caller guarantees that `self`'s shape equals `reference` with
    /// `axis` removed.
    pub fn broadcast_along(&self, axis: usize, reference: &Shape) -> (spread: Layout)
        requires
            well_formed(self@),
            axis < reference@.len(),
            reference@.remove(axis as int) == self@.0,
        ensures
            spread@ == (reference@, self@.1.insert(axis as int, 0), self@.2),
    {
        let mut strides = vstd::slice::slice_to_vec(self.strides.as_slice());
        strides.insert(axis, 0);
        Layout {
            shape: reference.clone(),
            strides: Strides::from_vec(strides),
            offset: self.offset,
        }
    }

    /// Returns the width of the buffer window this layout addresses: one
    /// past the distance from its first to its last logical element.
    ///
    /// A whole-window walk visits `span()` buffer elements where a
    /// logical walk visits `volume()`; a broadcast view's span never
    /// exceeds its volume.
    pub fn span(&self) -> (span: usize)
        requires
            addressable(self@),
            reach_from(self@.0, self@.1, 0) < usize::MAX,
        ensures
            span == reach_from(self@.0, self@.1, 0) + 1,
    {
        let axes = self.shape.axes();
        let strides = self.strides.as_slice();
        let mut furthest: usize = 0;
        let mut axis = axes.len();
        proof {
            lemma_reach_nonnegative(axes@, strides@, 0);
        }
        while axis > 0
            invariant
                axes@ == self@.0,
                strides@ == self@.1,
                addressable(self@),
                axis <= axes@.len(),
                furthest == reach_from(axes@, strides@, axis as int),
            decreases axis,
        {
            axis = axis - 1;
            proof {
                assert(axes@[axis as int] > 0);
                lemma_reach_prefix_bound(axes@, strides@, axis as int);
                lemma_reach_nonnegative(axes@, strides@, axis + 1);
                vstd::arithmetic::mul::lemma_mul_nonnegative(axes@[axis as int] - 1, strides@[axis as int] as int);
            }
            furthest = furthest + (axes[axis] - 1) * strides[axis];
        }
        furthest + 1
    }

    /// Returns the layout with its offset rebased to zero, for
    /// addressing a fresh buffer that holds exactly the addressed
    /// window.
    pub fn rebased(&self) -> (rebased: Layout)
        ensures
            rebased@ == (self@.0, self@.1, 0nat),
    {
        Layout { shape: self.shape.clone(), strides: self.strides.duplicate(), offset: 0 }
    }

    /// Returns the extent of the innermost axis: the length of one
    /// logical run. A rank-0 layout answers 1, its whole volume.
    pub fn inner_extent(&self) -> (extent: usize)
        ensures
            extent == if self@.0.len() == 0 { 1 } else { self@.0.last() },
    {
        let axes = self.shape.axes();
        if axes.len() == 0 {
            1
        } else {
            axes[axes.len() - 1]
        }
    }

    /// Returns the stride of the innermost axis: how a logical run steps
    /// through the buffer. A rank-0 layout answers 1, the unit step its
    /// single-element run never takes.
    pub fn inner_stride(&self) -> (stride: usize)
        ensures
            stride == if self@.1.len() == 0 { 1 } else { self@.1.last() },
    {
        let strides = self.strides.as_slice();
        if strides.len() == 0 {
            1
        } else {
            strides[strides.len() - 1]
        }
    }

    /// Returns the layout with its axes reordered by `order`: axis `i`
    /// of the result takes axis `order[i]` of `self`.
    ///
    /// The caller guarantees `order` is a permutation of `0..rank`.
    pub fn permute(&self, order: &[usize]) -> (permuted: Layout)
        requires
            well_formed(self@),
            forall|i: int| 0 <= i < order@.len() ==> #[trigger] order@[i] < self@.0.len(),
        ensures
            permuted@.0.len() == order@.len(),
            permuted@.1.len() == order@.len(),
            forall|i: int| 0 <= i < order@.len() ==> #[trigger] permuted@.0[i] == self@.0[order@[i] as int],
            forall|i: int| 0 <= i < order@.len() ==> #[trigger] permuted@.1[i] == self@.1[order@[i] as int],
            permuted@.2 == self@.2,
    {
        let axes = self.shape.axes();
        let strides = self.strides.as_slice();
        let mut new_axes: Vec<usize> = Vec::new();
        let mut new_strides: Vec<usize> = Vec::new();
        let mut position: usize = 0;
        while position < order.len()
            invariant
                axes@ == self@.0,
                strides@ == self@.1,
                strides@.len() == axes@.len(),
                forall|i: int| 0 <= i < order@.len() ==> #[trigger] order@[i] < self@.0.len(),
                position <= order@.len(),
                new_axes@.len() == position,
                new_strides@.len() == position,
                forall|i: int| 0 <= i < position ==> #[trigger] new_axes@[i] == axes@[order@[i] as int],
                forall|i: int| 0 <= i < position ==> #[trigger] new_strides@[i] == strides@[order@[i] as int],
            decreases order@.len() - position,
        {
            let axis = order[position];
            new_axes.push(axes[axis]);
            new_strides.push(strides[axis]);
            position = position + 1;
        }
        Layout { shape: Shape::new(new_axes), strides: Strides::from_vec(new_strides), offset: self.offset }
    }

    /// Returns the layout of a window of `len` elements starting at
    /// `start` along `axis`, a view sharing the buffer: the offset
    /// advances by `start` steps of that axis's stride and the axis
    /// extent shrinks to `len`.
    ///
    /// The caller guarantees `start + len <= extent(axis)`.
    pub fn narrow(&self, axis: usize, start: usize, len: usize) -> (window: Layout)
        requires
            well_formed(self@),
            axis < self@.0.len(),
            self@.2 + start * self@.1[axis as int] <= usize::MAX,
        ensures
            window@ == (self@.0.update(axis as int, len), self@.1, (self@.2 + start * self@.1[axis as int]) as nat),
    {
        let mut axes = vstd::slice::slice_to_vec(self.shape.axes());
        axes.set(axis, len);
        let strides = self.strides.as_slice();
        proof {
            vstd::arithmetic::mul::lemma_mul_nonnegative(start as int, self@.1[axis as int] as int);
        }
        let shift = start * strides[axis];
        Layout { shape: Shape::new(axes), strides: self.strides.duplicate(), offset: self.offset + shift }
    }

    /// Returns the layout of sliding windows along `axis`, a view
    /// sharing the buffer: the axis is replaced by a `(count, size)`
    /// pair whose window-start stride is `step` steps and whose
    /// in-window stride is `dilation` steps of the axis's own stride.
    /// An extent-1 result axis takes the canonical stride 0.
    ///
    /// The caller guarantees nonzero `size`, `step`, and `dilation`, and
    /// `dilation * (size - 1) + 1 <= extent(axis)`; a stride that is
    /// applied must fit `usize`.
    pub fn unfold(&self, axis: usize, size: usize, step: usize, dilation: usize) -> (windows: Layout)
        requires
            well_formed(self@),
            axis < self@.0.len(),
            size > 0,
            step > 0,
            dilation > 0,
            dilation * (size - 1) + 1 <= self@.0[axis as int],
            window_count(self@.0[axis as int] as int, size as int, step as int, dilation as int) != 1
                ==> step * self@.1[axis as int] <= usize::MAX,
            size != 1 ==> dilation * self@.1[axis as int] <= usize::MAX,
        ensures
            ({
                let count = window_count(self@.0[axis as int] as int, size as int, step as int, dilation as int);
                let along = self@.1[axis as int];
                windows@ == (
                    self@.0.update(axis as int, count as usize).insert(axis + 1, size),
                    self@.1.update(axis as int, if count == 1 { 0 } else { (step * along) as usize })
                        .insert(axis + 1, if size == 1 { 0 } else { (dilation * along) as usize }),
                    self@.2,
                )
            }),
    {
        let axes = self.shape.axes();
        proof {
            vstd::arithmetic::mul::lemma_mul_nonnegative(dilation as int, size - 1);
            vstd::arithmetic::div_mod::lemma_div_pos_is_pos(
                (self@.0[axis as int] - dilation * (size - 1) - 1) as int, step as int);
        }
        let reach = dilation * (size - 1);
        let count = (axes[axis] - reach - 1) / step + 1;
        let mut unfolded = vstd::slice::slice_to_vec(axes);
        unfolded.set(axis, count);
        unfolded.insert(axis + 1, size);
        let mut strides = vstd::slice::slice_to_vec(self.strides.as_slice());
        let along = strides[axis];
        let window_stride = if count == 1 {
            0
        } else {
            match step.checked_mul(along) {
                Some(product) => product,
                None => {
                    proof {
                        assert(false);
                    }
                    0
                },
            }
        };
        strides.set(axis, window_stride);
        let element_stride = if size == 1 {
            0
        } else {
            match dilation.checked_mul(along) {
                Some(product) => product,
                None => {
                    proof {
                        assert(false);
                    }
                    0
                },
            }
        };
        strides.insert(axis + 1, element_stride);
        Layout { shape: Shape::new(unfolded), strides: Strides::from_vec(strides), offset: self.offset }
    }

    /// Returns whether two layouts have the same shape, strides and
    /// offset.
    pub fn same_as(&self, other: &Layout) -> (same: bool)
        ensures
            same == (self@ == other@),
    {
        self.shape.same_as(&other.shape) && rows_equal(self.strides.as_slice(), other.strides.as_slice())
            && self.offset == other.offset
    }
}

/// Returns whether two integer rows hold the same values in order.
fn rows_equal(left: &[usize], right: &[usize]) -> (same: bool)
    ensures
        same == (left@ == right@),
{
    if left.len() != right.len() {
        return false;
    }
    let mut index: usize = 0;
    while index < left.len()
        invariant
            left@.len() == right@.len(),
            index <= left@.len(),
            forall|k: int| 0 <= k < index ==> left@[k] == right@[k],
        decreases left@.len() - index,
    {
        if left[index] != right[index] {
            return false;
        }
        index = index + 1;
    }
    assert(left@ =~= right@);
    true
}

impl Clone for Layout {
    fn clone(&self) -> (layout: Layout)
        ensures
            layout@ == self@,
    {
        Layout { shape: self.shape.clone(), strides: self.strides.duplicate(), offset: self.offset }
    }
}

impl PartialEq for Layout {
    fn eq(&self, other: &Layout) -> (same: bool) {
        self.same_as(other)
    }
}

impl vstd::std_specs::cmp::PartialEqSpecImpl for Layout {
    open spec fn obeys_eq_spec() -> bool {
        true
    }

    open spec fn eq_spec(&self, other: &Layout) -> bool {
        self@ == other@
    }
}

impl Eq for Layout {
}

/// A layout that is contiguous wherever a stride applies addresses the
/// logical row-major position `p` at `offset + p`: the contiguous
/// storage index is the identity shifted by the offset.
pub proof fn law_contiguous_index_is_identity(layout: (Seq<usize>, Seq<usize>, nat), position: nat)
    requires
        well_formed(layout),
        all_positive(layout.0),
        contiguous_on(layout.0, layout.1),
        position < volume_of(layout.0),
    ensures
        storage_address(layout, position) == layout.2 + position,
{
    lemma_contiguous_address(layout.0, layout.1, position, 0);
    lemma_small_mod(position, volume_of(layout.0));
}

/// The row-major strides of a shape are contiguous: a fresh layout is
/// always a contiguous slice.
pub proof fn law_row_major_is_contiguous(axes: Seq<usize>, strides: Seq<usize>)
    requires
        is_row_major(axes, strides),
    ensures
        contiguous_on(axes, strides),
{
}

/// Transposing a layout of rank at most two twice gives it back.
pub proof fn law_transpose_is_an_involution(layout: (Seq<usize>, Seq<usize>, nat))
    requires
        well_formed(layout),
        layout.0.len() <= 2,
    ensures
        swap_axes(swap_axes(layout)) == layout,
{
    if layout.0.len() == 2 {
        assert(swap_axes(swap_axes(layout)).0 =~= layout.0);
        assert(swap_axes(swap_axes(layout)).1 =~= layout.1);
    }
}

/// The layout [`Layout::transpose`] answers: the two axes and their
/// strides swapped at rank two, the layout itself below.
pub open spec fn swap_axes(layout: (Seq<usize>, Seq<usize>, nat)) -> (Seq<usize>, Seq<usize>, nat) {
    if layout.0.len() == 2 {
        (seq![layout.0[1], layout.0[0]], seq![layout.1[1], layout.1[0]], layout.2)
    } else {
        layout
    }
}


/// The strides of the view that reaches `target` from the source axes
/// `source[s..]` by inserting or removing extent-1 axes, matching
/// `target[t..]`: `None` when the non-unit extents differ in sequence.
///
/// A unit source axis is skipped; a unit target axis takes stride 0;
/// a non-unit target axis takes the stride of the next non-unit source
/// axis, whose extent must equal it.
pub open spec fn unit_view_strides(
    target: Seq<usize>,
    source: Seq<usize>,
    strides: Seq<usize>,
    t: int,
    s: int,
) -> Option<Seq<usize>>
    decreases target.len() - t + source.len() - s,
{
    if t < 0 || s < 0 || t > target.len() || s > source.len() {
        None
    } else if s < source.len() && source[s] == 1 {
        unit_view_strides(target, source, strides, t, s + 1)
    } else if t == target.len() {
        if s == source.len() {
            Some(Seq::empty())
        } else {
            None
        }
    } else if target[t] == 1 {
        match unit_view_strides(target, source, strides, t + 1, s) {
            Some(rest) => Some(seq![0usize] + rest),
            None => None,
        }
    } else if s == source.len() || source[s] != target[t] {
        None
    } else {
        match unit_view_strides(target, source, strides, t + 1, s + 1) {
            Some(rest) => Some(seq![strides[s]] + rest),
            None => None,
        }
    }
}

/// The layout [`Layout::reshape`] answers for `target`: fresh row-major
/// strides over a contiguous layout, otherwise the unit-axis view, and
/// `None` when the reshape must copy.
pub open spec fn reshaped(layout: (Seq<usize>, Seq<usize>, nat), target: Seq<usize>) -> Option<Seq<usize>> {
    if contiguous_on(layout.0, layout.1) {
        Some(Seq::new(target.len(), |k: int| suffix_product(target, k + 1) as usize))
    } else {
        unit_view_strides(target, layout.0, layout.1, 0, 0)
    }
}

impl Layout {
    /// Returns a layout for `shape` over the same buffer region,
    /// preserving the offset, or `None` when the reshape must copy.
    ///
    /// A contiguous layout reaches any shape with freshly computed
    /// row-major strides. A strided layout survives only a reshape that
    /// inserts or removes extent-1 axes -- a squeeze or unsqueeze --
    /// since such axes never advance the buffer and the remaining axes
    /// keep their strides.
    ///
    /// The caller guarantees `shape` has the same volume.
    pub fn reshape(&self, shape: Shape) -> (view: Option<Layout>)
        requires
            well_formed(self@),
            fits(self@.0),
            fits(shape@),
        ensures
            view is Some <==> reshaped(self@, shape@) is Some,
            view matches Some(layout) ==> layout@ == (shape@, reshaped(self@, shape@)->0, self@.2),
    {
        if self.is_contiguous() {
            let strides = Self::contiguous_strides(&shape);
            proof {
                assert(strides@ =~= Seq::new(shape@.len(), |k: int| suffix_product(shape@, k + 1) as usize));
            }
            return Some(Layout { shape, strides, offset: self.offset });
        }
        self.unit_axis_view(shape)
    }

    /// Returns the view of a reshape that only inserts or removes
    /// extent-1 axes, or `None` when the non-unit extents differ in
    /// sequence.
    ///
    /// Each non-unit target axis takes the stride of its matching
    /// non-unit source axis, and a unit axis takes stride 0, which no
    /// index ever applies.
    fn unit_axis_view(&self, shape: Shape) -> (view: Option<Layout>)
        requires
            well_formed(self@),
        ensures
            view is Some <==> unit_view_strides(shape@, self@.0, self@.1, 0, 0) is Some,
            view matches Some(layout) ==> layout@ == (
                shape@,
                unit_view_strides(shape@, self@.0, self@.1, 0, 0)->0,
                self@.2,
            ),
    {
        let source = self.shape.axes();
        let source_strides = self.strides.as_slice();
        let target = shape.axes();
        let mut strides: Vec<usize> = Vec::new();
        let mut t: usize = 0;
        let mut s: usize = 0;
        let ghost whole = unit_view_strides(target@, source@, source_strides@, 0, 0);
        while t < target.len()
            invariant
                source@ == self@.0,
                source_strides@ == self@.1,
                source_strides@.len() == source@.len(),
                target@ == shape@,
                t <= target@.len(),
                s <= source@.len(),
                whole == unit_view_strides(target@, source@, source_strides@, 0, 0),
                whole == match unit_view_strides(target@, source@, source_strides@, t as int, s as int) {
                    Some(rest) => Some(strides@ + rest),
                    None => None::<Seq<usize>>,
                },
            decreases target@.len() - t + source@.len() - s,
        {
            if s < source.len() && source[s] == 1 {
                s = s + 1;
                continue;
            }
            let extent = target[t];
            if extent == 1 {
                proof {
                    let rest = unit_view_strides(target@, source@, source_strides@, t + 1, s as int);
                    if rest is Some {
                        assert(strides@ + (seq![0usize] + rest->0) =~= strides@.push(0) + rest->0);
                    }
                }
                strides.push(0);
                t = t + 1;
                continue;
            }
            if s == source.len() || source[s] != extent {
                return None;
            }
            proof {
                let rest = unit_view_strides(target@, source@, source_strides@, t + 1, s + 1);
                if rest is Some {
                    assert(strides@ + (seq![source_strides@[s as int]] + rest->0)
                        =~= strides@.push(source_strides@[s as int]) + rest->0);
                }
            }
            strides.push(source_strides[s]);
            t = t + 1;
            s = s + 1;
        }
        while s < source.len()
            invariant
                source@ == self@.0,
                source_strides@ == self@.1,
                target@ == shape@,
                t == target@.len(),
                s <= source@.len(),
                whole == unit_view_strides(target@, source@, source_strides@, 0, 0),
                whole == match unit_view_strides(target@, source@, source_strides@, t as int, s as int) {
                    Some(rest) => Some(strides@ + rest),
                    None => None::<Seq<usize>>,
                },
            decreases source@.len() - s,
        {
            if source[s] != 1 {
                return None;
            }
            s = s + 1;
        }
        assert(strides@ + Seq::<usize>::empty() =~= strides@);
        Some(Layout { shape, strides: Strides::from_vec(strides), offset: self.offset })
    }
}


/// The axes of a row except the innermost: the axes a run walk steps
/// through.
pub open spec fn outer(row: Seq<usize>) -> Seq<usize> {
    if row.len() == 0 {
        row
    } else {
        row.subrange(0, row.len() - 1)
    }
}

/// The reach over a prefix of the axes never exceeds the reach over
/// all of them.
pub proof fn lemma_reach_of_prefix(axes: Seq<usize>, strides: Seq<usize>, m: int, k: int)
    requires
        0 <= k <= m <= axes.len(),
        strides.len() == axes.len(),
        all_positive(axes),
    ensures
        reach_from(axes.subrange(0, m), strides.subrange(0, m), k) <= reach_from(axes, strides, k),
    decreases m - k,
{
    if k == m {
        lemma_reach_nonnegative(axes, strides, k);
    } else {
        lemma_reach_of_prefix(axes, strides, m, k + 1);
    }
}

/// The suffix products of a prefix times the product of the rest give
/// the suffix products of the whole.
pub proof fn lemma_prefix_product(axes: Seq<usize>, m: int, k: int)
    requires
        0 <= k <= m <= axes.len(),
    ensures
        suffix_product(axes.subrange(0, m), k) * suffix_product(axes, m) == suffix_product(axes, k),
    decreases m - k,
{
    if k < m {
        lemma_prefix_product(axes, m, k + 1);
        let prefix = axes.subrange(0, m);
        assert(prefix[k] == axes[k]);
        assert(suffix_product(prefix, k) == axes[k] as nat * suffix_product(prefix, k + 1));
        vstd::arithmetic::mul::lemma_mul_is_associative(
            axes[k] as int, suffix_product(prefix, k + 1) as int, suffix_product(axes, m) as int);
    } else {
        assert(suffix_product(axes.subrange(0, m), k) == 1);
        vstd::arithmetic::mul::lemma_mul_basics(suffix_product(axes, m) as int);
    }
}

impl Layout {
    /// Returns the storage offsets at which each innermost-axis run
    /// begins, in logical order: one per multi-index of the outer axes,
    /// a rank-0 layout answering its single run.
    pub fn run_offsets(&self) -> (offsets: Vec<usize>)
        requires
            addressable(self@),
            fits(outer(self@.0)),
        ensures
            offsets@.len() == volume_of(outer(self@.0)),
            forall|run: int| 0 <= run < offsets@.len() ==> #[trigger] offsets@[run] == storage_address(
                (outer(self@.0), outer(self@.1), self@.2), run as nat),
    {
        let axes = self.shape.axes();
        let strides = self.strides.as_slice();
        let outer_rank = if axes.len() == 0 { 0 } else { axes.len() - 1 };
        let outer_axes = vstd::slice::slice_to_vec(vstd::slice::slice_subrange(axes, 0, outer_rank));
        let outer_strides = vstd::slice::slice_to_vec(vstd::slice::slice_subrange(strides, 0, outer_rank));
        proof {
            assert(outer_axes@ =~= outer(self@.0));
            assert(outer_strides@ =~= outer(self@.1));
            lemma_reach_of_prefix(axes@, strides@, outer_rank as int, 0);
            assert(axes@.subrange(0, outer_rank as int) =~= outer_axes@);
            assert(strides@.subrange(0, outer_rank as int) =~= outer_strides@);
            assert(all_positive(outer_axes@)) by {
                assert forall|k: int| 0 <= k < outer_axes@.len() implies #[trigger] outer_axes@[k] > 0 by {
                    assert(outer_axes@[k] == axes@[k]);
                }
            }
        }
        let outer_shape = Shape::new(outer_axes);
        let remaining = outer_shape.volume();
        let outer_axes = outer_shape.axes();
        let mut offsets: Vec<usize> = Vec::new();
        let mut run: usize = 0;
        while run < remaining
            invariant
                outer_axes@ == outer(self@.0),
                outer_strides@ == outer(self@.1),
                addressable((outer_axes@, outer_strides@, self@.2)),
                remaining == volume_of(outer(self@.0)),
                run <= remaining,
                offsets@.len() == run,
                forall|r: int| 0 <= r < run ==> #[trigger] offsets@[r] == storage_address(
                    (outer(self@.0), outer(self@.1), self@.2), r as nat),
            decreases remaining - run,
        {
            offsets.push(address_of(outer_axes, outer_strides.as_slice(), self.offset, run));
            run = run + 1;
        }
        offsets
    }
}


/// The address of `run * n` over all axes, where `n` is the innermost
/// extent, equals the address of `run` over the outer axes, from axis
/// `k` on.
proof fn lemma_run_address(axes: Seq<usize>, strides: Seq<usize>, run: nat, k: int)
    requires
        axes.len() > 0,
        strides.len() == axes.len(),
        all_positive(axes),
        0 <= k <= axes.len() - 1,
    ensures
        address_from(axes, strides, run * (axes.last() as nat), k)
            == address_from(outer(axes), outer(strides), run, k),
    decreases axes.len() - k,
{
    let m = axes.len() - 1;
    let n = axes.last() as nat;
    let prefix = outer(axes);
    assert(n > 0);
    assert(suffix_product(axes, m + 1) == 1);
    assert(suffix_product(axes, m) == n * 1);
    vstd::arithmetic::div_mod::lemma_div_basics_2((run * n) as int);
    if k == m {
        lemma_mul_is_commutative(run as int, n as int);
        vstd::arithmetic::div_mod::lemma_mod_multiples_basic(run as int, n as int);
        assert(coordinate(axes, run * n, m) == 0);
        vstd::arithmetic::mul::lemma_mul_basics_1(strides[m] as int);
        assert(address_from(axes, strides, run * n, m + 1) == 0);
    } else {
        lemma_run_address(axes, strides, run, k + 1);
        lemma_prefix_product(axes, m, k + 1);
        let inner = suffix_product(prefix, k + 1);
        assert forall|j: int| 0 <= j < prefix.len() implies #[trigger] prefix[j] > 0 by {
            assert(prefix[j] == axes[j]);
        }
        lemma_suffix_product_positive(prefix, k + 1);
        lemma_div_denominator((run * n) as int, n as int, inner as int);
        lemma_mul_is_commutative(run as int, n as int);
        vstd::arithmetic::div_mod::lemma_div_multiples_vanish(run as int, n as int);
        lemma_mul_is_commutative(n as int, inner as int);
        assert(suffix_product(axes, k + 1) == inner * n);
        assert(coordinate(axes, run * n, k) == coordinate(prefix, run, k));
        assert(outer(strides)[k] == strides[k]);
    }
}

/// Each run offset is the storage index of its run's first element:
/// run `r` of a layout whose innermost extent is `n` starts where the
/// logical position `r * n` lives.
pub proof fn law_run_offsets_start_runs(layout: (Seq<usize>, Seq<usize>, nat), run: nat)
    requires
        addressable(layout),
    ensures
        storage_address((outer(layout.0), outer(layout.1), layout.2), run)
            == storage_address(layout, run * (if layout.0.len() == 0 { 1nat } else { layout.0.last() as nat })),
{
    if layout.0.len() > 0 {
        lemma_run_address(layout.0, layout.1, run, 0);
    } else {
        vstd::arithmetic::mul::lemma_mul_basics(run as int);
    }
}

/// The reach from any axis is bounded by the reach from the first.
pub proof fn lemma_reach_prefix_bound(axes: Seq<usize>, strides: Seq<usize>, k: int)
    requires
        0 <= k,
        strides.len() == axes.len(),
        all_positive(axes),
    ensures
        0 <= reach_from(axes, strides, k) <= reach_from(axes, strides, 0),
    decreases k,
{
    if k > 0 {
        lemma_reach_prefix_bound(axes, strides, k - 1);
        lemma_reach_nonnegative(axes, strides, k);
        if k - 1 < axes.len() {
            assert(axes[k - 1] > 0);
            vstd::arithmetic::mul::lemma_mul_nonnegative(axes[k - 1] - 1, strides[k - 1] as int);
        }
    } else {
        lemma_reach_nonnegative(axes, strides, 0);
    }
}

/// Reaches over positive extents are never negative.
pub proof fn lemma_reach_nonnegative(axes: Seq<usize>, strides: Seq<usize>, k: int)
    requires
        0 <= k,
        strides.len() == axes.len(),
        all_positive(axes),
    ensures
        reach_from(axes, strides, k) >= 0,
    decreases axes.len() - k,
{
    if k < axes.len() {
        lemma_reach_nonnegative(axes, strides, k + 1);
        assert(axes[k] > 0);
        vstd::arithmetic::mul::lemma_mul_nonnegative(axes[k] - 1, strides[k] as int);
    }
}

} // verus!

verus! {

/// Every axis from `m` on holds its last coordinate at `position`.
pub open spec fn maxed_from(axes: Seq<usize>, position: nat, m: int) -> bool {
    forall|k: int| m <= k < axes.len() ==> #[trigger] coordinate(axes, position, k) == axes[k] - 1
}

/// Every axis from `m` on holds coordinate zero at `position`.
pub open spec fn zero_from(axes: Seq<usize>, position: nat, m: int) -> bool {
    forall|k: int| m <= k < axes.len() ==> #[trigger] coordinate(axes, position, k) == 0
}

/// A suffix product is the extent times the next one.
proof fn lemma_suffix_step(axes: Seq<usize>, k: int)
    requires
        0 <= k < axes.len(),
    ensures
        suffix_product(axes, k) == suffix_product(axes, k + 1) * (axes[k] as nat),
{
    lemma_mul_is_commutative(axes[k] as int, suffix_product(axes, k + 1) as int);
}

/// When every axis from `m` on holds its last coordinate, the position
/// is one short of a multiple of the suffix product at `m`.
pub proof fn lemma_maxed_remainder(axes: Seq<usize>, position: nat, m: int)
    requires
        0 <= m <= axes.len(),
        all_positive(axes),
        maxed_from(axes, position, m),
    ensures
        position % suffix_product(axes, m) == suffix_product(axes, m) - 1,
    decreases axes.len() - m,
{
    if m == axes.len() {
        lemma_small_mod(0, 1);
        lemma_mod_bound(position as int, 1);
    } else {
        lemma_maxed_remainder(axes, position, m + 1);
        let inner = suffix_product(axes, m + 1) as int;
        let extent = axes[m] as int;
        assert(extent > 0);
        lemma_suffix_product_positive(axes, m + 1);
        lemma_suffix_step(axes, m);
        lemma_mod_breakdown(position as int, inner, extent);
        assert(coordinate(axes, position, m) == extent - 1);
        assert(inner * (extent - 1) + (inner - 1) == inner * extent - 1) by (nonlinear_arith);
    }
}

/// A multiple of the suffix product at `m` holds coordinate zero on
/// every axis from `m` on.
pub proof fn lemma_multiple_zero_digits(axes: Seq<usize>, position: nat, m: int)
    requires
        0 <= m <= axes.len(),
        all_positive(axes),
        position % suffix_product(axes, m) == 0,
    ensures
        zero_from(axes, position, m),
    decreases axes.len() - m,
{
    if m < axes.len() {
        let inner = suffix_product(axes, m + 1) as int;
        let extent = axes[m] as int;
        assert(extent > 0);
        lemma_suffix_product_positive(axes, m + 1);
        lemma_suffix_step(axes, m);
        lemma_mod_breakdown(position as int, inner, extent);
        let digit = coordinate(axes, position, m) as int;
        let rest = (position % suffix_product(axes, m + 1)) as int;
        assert(inner * digit + rest == 0);
        assert(inner * digit >= 0) by (nonlinear_arith)
            requires inner > 0, digit >= 0;
        assert(digit == 0) by (nonlinear_arith)
            requires inner > 0, digit >= 0, inner * digit == 0;
        lemma_multiple_zero_digits(axes, position, m + 1);
    }
}

/// The odometer step: when every axis past `axis` holds its last
/// coordinate and `axis` does not, the next position advances `axis` by
/// one, zeroes every axis past it, and keeps every axis before it.
pub proof fn lemma_odometer_step(axes: Seq<usize>, position: nat, axis: int)
    requires
        0 <= axis < axes.len(),
        all_positive(axes),
        maxed_from(axes, position, axis + 1),
        coordinate(axes, position, axis) + 1 < axes[axis],
    ensures
        coordinate(axes, position + 1, axis) == coordinate(axes, position, axis) + 1,
        zero_from(axes, position + 1, axis + 1),
        forall|k: int| 0 <= k < axis ==> #[trigger] coordinate(axes, position + 1, k) == coordinate(axes, position, k),
{
    let inner = suffix_product(axes, axis + 1) as int;
    let extent = axes[axis] as int;
    lemma_suffix_product_positive(axes, axis + 1);
    lemma_maxed_remainder(axes, position, axis + 1);
    let quotient = position as int / inner;
    vstd::arithmetic::div_mod::lemma_fundamental_div_mod(position as int, inner);
    assert((quotient + 1) * inner == inner * quotient + inner) by (nonlinear_arith);
    vstd::arithmetic::div_mod::lemma_fundamental_div_mod_converse(position as int + 1, inner, quotient + 1, 0);
    lemma_multiple_zero_digits(axes, position + 1, axis + 1);
    let digit = quotient % extent;
    vstd::arithmetic::div_mod::lemma_fundamental_div_mod(quotient, extent);
    vstd::arithmetic::div_mod::lemma_fundamental_div_mod_converse(quotient + 1, extent, quotient / extent, digit + 1);
    lemma_same_quotients(axes, position, axis);
    assert forall|k: int| 0 <= k < axis implies #[trigger] coordinate(axes, position + 1, k) == coordinate(axes, position, k) by {
        assert((position + 1) as nat / suffix_product(axes, k + 1) == position / suffix_product(axes, k + 1));
    }
}

/// Below a non-maxed axis, the next position shares every quotient by a
/// suffix product up to that axis.
proof fn lemma_same_quotients(axes: Seq<usize>, position: nat, axis: int)
    requires
        0 <= axis < axes.len(),
        all_positive(axes),
        maxed_from(axes, position, axis + 1),
        coordinate(axes, position, axis) + 1 < axes[axis],
    ensures
        forall|j: int| 0 <= j <= axis ==> #[trigger] ((position + 1) as nat / suffix_product(axes, j)) == position / suffix_product(axes, j),
{
    let inner = suffix_product(axes, axis + 1) as int;
    let extent = axes[axis] as int;
    lemma_suffix_product_positive(axes, axis + 1);
    lemma_maxed_remainder(axes, position, axis + 1);
    let quotient = position as int / inner;
    vstd::arithmetic::div_mod::lemma_fundamental_div_mod(position as int, inner);
    assert((quotient + 1) * inner == inner * quotient + inner) by (nonlinear_arith);
    vstd::arithmetic::div_mod::lemma_fundamental_div_mod_converse(position as int + 1, inner, quotient + 1, 0);
    let digit = quotient % extent;
    vstd::arithmetic::div_mod::lemma_fundamental_div_mod(quotient, extent);
    vstd::arithmetic::div_mod::lemma_fundamental_div_mod_converse(quotient + 1, extent, quotient / extent, digit + 1);
    lemma_suffix_step(axes, axis);
    lemma_div_denominator(position as int, inner, extent);
    lemma_div_denominator(position as int + 1, inner, extent);
    lemma_quotients_below(axes, position, axis);
}

/// Equal quotients by the suffix product at `top` stay equal at every
/// suffix product to its left.
proof fn lemma_quotients_below(axes: Seq<usize>, position: nat, top: int)
    requires
        0 <= top < axes.len(),
        all_positive(axes),
        (position + 1) as nat / suffix_product(axes, top) == position / suffix_product(axes, top),
    ensures
        forall|j: int| 0 <= j <= top ==> #[trigger] ((position + 1) as nat / suffix_product(axes, j)) == position / suffix_product(axes, j),
    decreases top,
{
    if top > 0 {
        let j = top - 1;
        let inner = suffix_product(axes, top) as int;
        let extent = axes[j] as int;
        assert(extent > 0);
        lemma_suffix_product_positive(axes, top);
        lemma_suffix_step(axes, j);
        lemma_div_denominator(position as int, inner, extent);
        lemma_div_denominator(position as int + 1, inner, extent);
        lemma_quotients_below(axes, position, j);
    }
}

/// Positions that agree on every axis in `k..m` contribute the same
/// address over those axes.
pub proof fn lemma_address_window(axes: Seq<usize>, strides: Seq<usize>, left: nat, right: nat, k: int, m: int)
    requires
        0 <= k <= m <= axes.len(),
        forall|j: int| k <= j < m ==> #[trigger] coordinate(axes, left, j) == coordinate(axes, right, j),
    ensures
        address_from(axes, strides, left, k) - address_from(axes, strides, left, m)
            == address_from(axes, strides, right, k) - address_from(axes, strides, right, m),
    decreases m - k,
{
    if k < m {
        lemma_address_window(axes, strides, left, right, k + 1, m);
    }
}

/// Coordinate zero on every axis from `m` on addresses nothing there.
pub proof fn lemma_zero_address(axes: Seq<usize>, strides: Seq<usize>, position: nat, m: int)
    requires
        0 <= m <= axes.len(),
        zero_from(axes, position, m),
    ensures
        address_from(axes, strides, position, m) == 0,
    decreases axes.len() - m,
{
    if m < axes.len() {
        lemma_zero_address(axes, strides, position, m + 1);
    }
}

/// The address from an axis on never exceeds the address from an
/// earlier axis on.
pub proof fn lemma_address_monotone(axes: Seq<usize>, strides: Seq<usize>, position: nat, k: int, m: int)
    requires
        0 <= k <= m,
    ensures
        address_from(axes, strides, position, m) <= address_from(axes, strides, position, k),
    decreases m - k,
{
    if k < m {
        lemma_address_monotone(axes, strides, position, k + 1, m);
    }
}

} // verus!

verus! {

/// The outer axes of a representable shape are representable, and their
/// volume times the innermost extent is the whole volume.
pub proof fn lemma_outer_volume(axes: Seq<usize>)
    requires
        axes.len() > 0,
        all_positive(axes),
        fits(axes),
    ensures
        fits(outer(axes)),
        volume_of(outer(axes)) * (axes.last() as nat) == volume_of(axes),
{
    let m = axes.len() - 1;
    let n = axes.last() as nat;
    assert(suffix_product(axes, m + 1) == 1);
    assert(suffix_product(axes, m) == n * 1);
    assert(n > 0);
    lemma_prefix_product(axes, m, 0);
    assert forall|k: int| 0 <= k <= outer(axes).len() implies #[trigger] suffix_product(outer(axes), k) <= usize::MAX by {
        lemma_prefix_product(axes, m, k);
        assert(suffix_product(axes, k) <= usize::MAX);
        vstd::arithmetic::mul::lemma_mul_inequality(1, n as int, suffix_product(outer(axes), k) as int);
        lemma_mul_is_commutative(n as int, suffix_product(outer(axes), k) as int);
    }
}

/// Within one innermost run, the element `j` places past the run's start
/// lies `j` innermost strides past the start's address.
pub proof fn lemma_run_element(axes: Seq<usize>, strides: Seq<usize>, run: nat, j: nat)
    requires
        axes.len() > 0,
        strides.len() == axes.len(),
        all_positive(axes),
        j < axes.last(),
    ensures
        address_from(axes, strides, run * (axes.last() as nat) + j, 0)
            == address_from(axes, strides, run * (axes.last() as nat), 0) + j * (strides.last() as nat),
{
    let m = axes.len() - 1;
    let n = axes.last() as nat;
    let start = run * n;
    let position = start + j;
    assert(suffix_product(axes, m + 1) == 1);
    assert(suffix_product(axes, m) == n * 1);
    vstd::arithmetic::div_mod::lemma_div_basics_2(position as int);
    vstd::arithmetic::div_mod::lemma_div_basics_2(start as int);
    lemma_mul_is_commutative(run as int, n as int);
    vstd::arithmetic::div_mod::lemma_fundamental_div_mod_converse(position as int, n as int, run as int, j as int);
    vstd::arithmetic::div_mod::lemma_fundamental_div_mod_converse(start as int, n as int, run as int, 0);
    assert(coordinate(axes, position, m) == j);
    assert(coordinate(axes, start, m) == 0);
    assert forall|k: int| 0 <= k < m implies #[trigger] coordinate(axes, position, k) == coordinate(axes, start, k) by {
        lemma_prefix_product(axes, m, k + 1);
        let inner = suffix_product(outer(axes), k + 1);
        assert forall|i: int| 0 <= i < outer(axes).len() implies #[trigger] outer(axes)[i] > 0 by {
            assert(outer(axes)[i] == axes[i]);
        }
        lemma_suffix_product_positive(outer(axes), k + 1);
        lemma_mul_is_commutative(inner as int, n as int);
        lemma_div_denominator(position as int, n as int, inner as int);
        lemma_div_denominator(start as int, n as int, inner as int);
    }
    lemma_address_window(axes, strides, position, start, 0, m);
    assert(address_from(axes, strides, position, m + 1) == 0);
    assert(address_from(axes, strides, start, m + 1) == 0);
    vstd::arithmetic::mul::lemma_mul_basics(strides[m] as int);
}

} // verus!

verus! {

/// The multi-index of the logical row-major `position`: its coordinate
/// along every axis.
pub open spec fn coordinates(axes: Seq<usize>, position: nat) -> Seq<nat> {
    Seq::new(axes.len(), |k: int| coordinate(axes, position, k))
}

/// The logical row-major position the multi-index `index` names, from
/// axis `k` on: each coordinate times the suffix product past its axis.
pub open spec fn flatten_from(axes: Seq<usize>, index: Seq<nat>, k: int) -> nat
    decreases axes.len() - k,
{
    if k < 0 || k >= axes.len() {
        0
    } else {
        index[k] * suffix_product(axes, k + 1) + flatten_from(axes, index, k + 1)
    }
}

/// The logical row-major position the multi-index `index` names.
pub open spec fn flatten(axes: Seq<usize>, index: Seq<nat>) -> nat {
    flatten_from(axes, index, 0)
}

/// Whether `index` is a multi-index of `axes`: one coordinate per axis,
/// each below its extent.
pub open spec fn within(axes: Seq<usize>, index: Seq<nat>) -> bool {
    &&& index.len() == axes.len()
    &&& forall|k: int| 0 <= k < axes.len() ==> #[trigger] index[k] < axes[k]
}

/// The multi-index dotted with `strides`, from axis `k` on.
pub open spec fn dot_from(index: Seq<nat>, strides: Seq<usize>, k: int) -> nat
    decreases index.len() - k,
{
    if k < 0 || k >= index.len() {
        0
    } else {
        index[k] * (strides[k] as nat) + dot_from(index, strides, k + 1)
    }
}

/// The address of a position is its multi-index dotted with the strides.
pub proof fn lemma_address_is_dot(axes: Seq<usize>, strides: Seq<usize>, position: nat, k: int)
    requires
        0 <= k,
    ensures
        address_from(axes, strides, position, k) == dot_from(coordinates(axes, position), strides, k),
    decreases axes.len() - k,
{
    if k < axes.len() {
        lemma_address_is_dot(axes, strides, position, k + 1);
    }
}

/// A multi-index names a position below the suffix product it starts at.
pub proof fn lemma_flatten_bound(axes: Seq<usize>, index: Seq<nat>, k: int)
    requires
        0 <= k <= axes.len(),
        all_positive(axes),
        within(axes, index),
    ensures
        flatten_from(axes, index, k) < suffix_product(axes, k),
    decreases axes.len() - k,
{
    if k < axes.len() {
        lemma_flatten_bound(axes, index, k + 1);
        let inner = suffix_product(axes, k + 1) as int;
        let digit = index[k] as int;
        let extent = axes[k] as int;
        assert(digit < extent);
        assert(digit * inner + inner <= extent * inner) by (nonlinear_arith)
            requires digit < extent, inner >= 0;
    }
}

/// The coordinates before axis `k` contribute a multiple of the suffix
/// product at `k`.
proof fn lemma_flatten_high(axes: Seq<usize>, index: Seq<nat>, k: int) -> (high: nat)
    requires
        0 <= k <= axes.len(),
    ensures
        flatten(axes, index) == high * suffix_product(axes, k) + flatten_from(axes, index, k),
    decreases k,
{
    if k == 0 {
        0
    } else {
        let below = lemma_flatten_high(axes, index, k - 1);
        let extent = axes[k - 1] as nat;
        let inner = suffix_product(axes, k);
        assert(suffix_product(axes, k - 1) == extent * inner);
        let high = below * extent + index[k - 1];
        assert(below * (extent * inner) + index[k - 1] * inner == high * inner) by (nonlinear_arith)
            requires high == below * extent + index[k - 1];
        high
    }
}

/// A multi-index of `axes` is recovered, coordinate for coordinate, from
/// the position it names.
pub proof fn lemma_coordinates_of_flatten(axes: Seq<usize>, index: Seq<nat>)
    requires
        all_positive(axes),
        within(axes, index),
    ensures
        coordinates(axes, flatten(axes, index)) == index,
        flatten(axes, index) < volume_of(axes),
{
    lemma_flatten_bound(axes, index, 0);
    assert forall|k: int| 0 <= k < axes.len() implies #[trigger] coordinate(axes, flatten(axes, index), k) == index[k] by {
        let high = lemma_flatten_high(axes, index, k);
        let extent = axes[k] as int;
        let inner = suffix_product(axes, k + 1) as int;
        lemma_flatten_bound(axes, index, k + 1);
        let tail = flatten_from(axes, index, k + 1) as int;
        assert(suffix_product(axes, k) == extent * inner);
        let quotient = high * extent + index[k];
        assert(flatten(axes, index) == quotient * inner + tail) by (nonlinear_arith)
            requires
                flatten(axes, index) == high * (extent * inner) + (index[k] * inner + tail),
                quotient == high * extent + index[k];
        vstd::arithmetic::div_mod::lemma_fundamental_div_mod_converse(flatten(axes, index) as int, inner, quotient, tail);
        assert(index[k] < extent);
        vstd::arithmetic::div_mod::lemma_fundamental_div_mod_converse(quotient, extent, high as int, index[k] as int);
    }
    assert(coordinates(axes, flatten(axes, index)) =~= index);
}

/// The suffix products of a prefix of the axes, scaled by the suffix
/// product where the prefix ends, are the suffix products of the axes.
proof fn lemma_suffix_of_take(axes: Seq<usize>, k: int, m: int)
    requires
        0 <= m <= k <= axes.len(),
    ensures
        suffix_product(axes, m) == suffix_product(axes.take(k), m) * suffix_product(axes, k),
    decreases k - m,
{
    if m < k {
        lemma_suffix_of_take(axes, k, m + 1);
        let extent = axes[m] as int;
        let head = suffix_product(axes.take(k), m + 1) as int;
        let tail = suffix_product(axes, k) as int;
        assert(axes.take(k)[m] == axes[m]);
        assert(extent * (head * tail) == (extent * head) * tail) by (nonlinear_arith);
    } else {
        assert(suffix_product(axes.take(k), k) == 1);
    }
}

/// The position a multi-index names splits at axis `k`: the positions of
/// its leading coordinates, scaled by the suffix product there, plus
/// the position from `k` on.
proof fn lemma_flatten_head(axes: Seq<usize>, index: Seq<nat>, k: int, j: int)
    requires
        0 <= j <= k <= axes.len(),
        index.len() == axes.len(),
    ensures
        flatten_from(axes, index, j)
            == flatten_from(axes.take(k), index.take(k), j) * suffix_product(axes, k) + flatten_from(axes, index, k),
    decreases k - j,
{
    if j < k {
        lemma_flatten_head(axes, index, k, j + 1);
        lemma_suffix_of_take(axes, k, j + 1);
        let coordinate = index[j] as int;
        let head_suffix = suffix_product(axes.take(k), j + 1) as int;
        let scale = suffix_product(axes, k) as int;
        let rest = flatten_from(axes.take(k), index.take(k), j + 1) as int;
        assert(axes.take(k)[j] == axes[j] && index.take(k)[j] == index[j]);
        assert(coordinate * (head_suffix * scale) + rest * scale == (coordinate * head_suffix + rest) * scale)
            by (nonlinear_arith);
        assert(flatten_from(axes, index, j) == index[j] * suffix_product(axes, j + 1) + flatten_from(axes, index, j + 1));
        assert(flatten_from(axes.take(k), index.take(k), j)
            == index.take(k)[j] * suffix_product(axes.take(k), j + 1) + flatten_from(axes.take(k), index.take(k), j + 1));
    } else {
        assert(flatten_from(axes.take(k), index.take(k), j) == 0);
    }
}

/// A position computed from axis `k` on reads only the extents and
/// coordinates from `k` on.
pub proof fn lemma_flatten_same_tail(axes: Seq<usize>, index: Seq<nat>, other_axes: Seq<usize>, other_index: Seq<nat>, k: int)
    requires
        0 <= k,
        axes.len() == other_axes.len(),
        forall|j: int| k <= j < axes.len() ==> #[trigger] axes[j] == other_axes[j] && index[j] == other_index[j],
    ensures
        flatten_from(axes, index, k) == flatten_from(other_axes, other_index, k),
    decreases axes.len() - k,
{
    if k < axes.len() {
        lemma_flatten_same_tail(axes, index, other_axes, other_index, k + 1);
        crate::shape::lemma_suffix_same_tail(axes, other_axes, k + 1);
        assert(axes[k] == other_axes[k] && index[k] == other_index[k]);
    }
}

/// The position a multi-index names, viewed as `[outer, axis, inner]`
/// blocks at axis `k`: its leading coordinates name the block, its
/// coordinate at `k` the row, and its trailing coordinates the offset.
pub proof fn lemma_flatten_split(axes: Seq<usize>, index: Seq<nat>, k: int)
    requires
        all_positive(axes),
        within(axes, index),
        0 <= k < axes.len(),
    ensures
        flatten(axes, index) == (flatten(axes.take(k), index.take(k)) * axes[k] + index[k]) * suffix_product(axes, k + 1)
            + flatten_from(axes, index, k + 1),
        flatten(axes.take(k), index.take(k)) < prefix_product(axes, k),
        flatten_from(axes, index, k + 1) < suffix_product(axes, k + 1),
{
    lemma_flatten_head(axes, index, k, 0);
    let head = flatten(axes.take(k), index.take(k)) as int;
    let extent = axes[k] as int;
    let inner = suffix_product(axes, k + 1) as int;
    let rest = flatten_from(axes, index, k + 1) as int;
    assert(suffix_product(axes, k) == extent * inner);
    assert(head * (extent * inner) + (index[k] * inner + rest) == (head * extent + index[k]) * inner + rest)
        by (nonlinear_arith);
    lemma_flatten_bound(axes, index, k + 1);
    let front = axes.take(k);
    assert(all_positive(front)) by {
        assert forall|j: int| 0 <= j < front.len() implies #[trigger] front[j] > 0 by {
            assert(front[j] == axes[j]);
        }
    }
    assert(within(front, index.take(k))) by {
        assert forall|j: int| 0 <= j < front.len() implies #[trigger] index.take(k)[j] < front[j] by {
            assert(front[j] == axes[j] && index.take(k)[j] == index[j]);
        }
    }
    lemma_flatten_bound(front, index.take(k), 0);
    crate::shape::lemma_volume_split(front, k);
    assert(suffix_product(front, k) == 1);
    assert forall|j: int| 0 <= j < k implies #[trigger] front[j] == axes[j] by {}
    crate::shape::lemma_prefix_same_head(front, axes, k);
    assert(prefix_product(front, k) * 1 == prefix_product(front, k));
}

/// The coordinates of a position name the position back, from axis `k`
/// on up to the suffix product there.
proof fn lemma_flatten_of_coordinates_from(axes: Seq<usize>, position: nat, k: int)
    requires
        all_positive(axes),
        0 <= k <= axes.len(),
    ensures
        flatten_from(axes, coordinates(axes, position), k) == position % suffix_product(axes, k),
    decreases axes.len() - k,
{
    if k < axes.len() {
        lemma_flatten_of_coordinates_from(axes, position, k + 1);
        let inner = suffix_product(axes, k + 1);
        let extent = axes[k] as nat;
        lemma_suffix_product_positive(axes, k + 1);
        lemma_mod_breakdown(position as int, inner as int, extent as int);
        lemma_mul_is_commutative(inner as int, extent as int);
        lemma_mul_is_commutative(inner as int, ((position / inner) % extent) as int);
    } else {
        assert(position % 1 == 0);
    }
}

/// The coordinates of a position below the volume name that position.
pub proof fn lemma_flatten_of_coordinates(axes: Seq<usize>, position: nat)
    requires
        all_positive(axes),
        position < volume_of(axes),
    ensures
        flatten(axes, coordinates(axes, position)) == position,
{
    lemma_flatten_of_coordinates_from(axes, position, 0);
    lemma_small_mod(position, volume_of(axes));
}

/// The address of the position a multi-index names is the multi-index
/// dotted with the strides.
pub proof fn lemma_address_of_flatten(axes: Seq<usize>, strides: Seq<usize>, index: Seq<nat>)
    requires
        all_positive(axes),
        within(axes, index),
    ensures
        address_from(axes, strides, flatten(axes, index), 0) == dot_from(index, strides, 0),
        flatten(axes, index) < volume_of(axes),
{
    lemma_coordinates_of_flatten(axes, index);
    lemma_address_is_dot(axes, strides, flatten(axes, index), 0);
}

/// The coordinates of a position below the volume form a multi-index.
pub proof fn lemma_coordinates_within(axes: Seq<usize>, position: nat)
    requires
        all_positive(axes),
    ensures
        within(axes, coordinates(axes, position)),
{
    assert forall|k: int| 0 <= k < axes.len() implies #[trigger] coordinates(axes, position)[k] < axes[k] by {
        lemma_suffix_product_positive(axes, k + 1);
        lemma_mod_bound((position / suffix_product(axes, k + 1)) as int, axes[k] as int);
    }
}

} // verus!

verus! {

/// Inserting a stride-0 axis changes no dot product: the coordinate
/// along it never moves the address.
pub proof fn lemma_dot_insert_zero(index: Seq<nat>, strides: Seq<usize>, axis: int, k: int)
    requires
        index.len() == strides.len() + 1,
        0 <= axis <= strides.len(),
        0 <= k <= index.len(),
    ensures
        k <= axis ==> dot_from(index, strides.insert(axis, 0), k) == dot_from(index.remove(axis), strides, k),
        k > axis ==> dot_from(index, strides.insert(axis, 0), k) == dot_from(index.remove(axis), strides, k - 1),
    decreases index.len() - k,
{
    if k < index.len() {
        lemma_dot_insert_zero(index, strides, axis, k + 1);
        if k == axis {
            assert(strides.insert(axis, 0)[k] == 0);
            vstd::arithmetic::mul::lemma_mul_basics(index[k] as int);
        } else if k < axis {
            assert(strides.insert(axis, 0)[k] == strides[k]);
            assert(index.remove(axis)[k] == index[k]);
        } else {
            assert(strides.insert(axis, 0)[k] == strides[k - 1]);
            assert(index.remove(axis)[k - 1] == index[k]);
        }
    }
}

/// Shifting one coordinate by `delta` shifts the dot product by `delta`
/// strides of that axis.
pub proof fn lemma_dot_shift(index: Seq<nat>, strides: Seq<usize>, axis: int, delta: nat, k: int)
    requires
        index.len() == strides.len(),
        0 <= axis < index.len(),
        0 <= k <= index.len(),
    ensures
        dot_from(index.update(axis, index[axis] + delta), strides, k)
            == dot_from(index, strides, k) + if k <= axis { delta * (strides[axis] as nat) } else { 0 },
    decreases index.len() - k,
{
    if k < index.len() {
        lemma_dot_shift(index, strides, axis, delta, k + 1);
        if k == axis {
            assert((index[axis] + delta) * (strides[axis] as nat) == index[axis] * (strides[axis] as nat) + delta * (strides[axis] as nat))
                by (nonlinear_arith);
        }
    }
}

/// The reach over all axes covers the full extent of any one axis.
pub proof fn lemma_reach_covers_axis(axes: Seq<usize>, strides: Seq<usize>, axis: int, k: int)
    requires
        strides.len() == axes.len(),
        all_positive(axes),
        0 <= k <= axis < axes.len(),
    ensures
        reach_from(axes, strides, k) >= (axes[axis] - 1) * strides[axis],
    decreases axis - k,
{
    lemma_reach_nonnegative(axes, strides, k + 1);
    assert(axes[k] > 0);
    vstd::arithmetic::mul::lemma_mul_nonnegative(axes[k] - 1, strides[k] as int);
    if k < axis {
        lemma_reach_covers_axis(axes, strides, axis, k + 1);
    }
}

/// Inserting an axis of stride zero leaves the reach unchanged.
pub proof fn lemma_reach_insert_zero(axes: Seq<usize>, strides: Seq<usize>, axis: int, extent: usize, k: int)
    requires
        strides.len() == axes.len(),
        0 <= axis <= axes.len(),
        0 <= k <= axes.len() + 1,
    ensures
        k <= axis ==> reach_from(axes.insert(axis, extent), strides.insert(axis, 0), k) == reach_from(axes, strides, k),
        k > axis ==> reach_from(axes.insert(axis, extent), strides.insert(axis, 0), k) == reach_from(axes, strides, k - 1),
    decreases axes.len() + 1 - k,
{
    if k < axes.len() + 1 {
        lemma_reach_insert_zero(axes, strides, axis, extent, k + 1);
        if k == axis {
            vstd::arithmetic::mul::lemma_mul_basics((extent - 1) as int);
        } else if k < axis {
            assert(axes.insert(axis, extent)[k] == axes[k]);
            assert(strides.insert(axis, 0)[k] == strides[k]);
        } else {
            assert(axes.insert(axis, extent)[k] == axes[k - 1]);
            assert(strides.insert(axis, 0)[k] == strides[k - 1]);
        }
    }
}

/// Shrinking one axis to `len` shrinks the reach by the dropped extent's
/// stride span.
pub proof fn lemma_reach_narrowed(axes: Seq<usize>, strides: Seq<usize>, axis: int, len: usize, k: int)
    requires
        strides.len() == axes.len(),
        0 <= axis < axes.len(),
        0 < len <= axes[axis],
        0 <= k <= axes.len(),
    ensures
        reach_from(axes.update(axis, len), strides, k) + if k <= axis { (axes[axis] - len) * strides[axis] } else { 0 }
            == reach_from(axes, strides, k),
    decreases axes.len() - k,
{
    if k < axes.len() {
        lemma_reach_narrowed(axes, strides, axis, len, k + 1);
        if k == axis {
            assert((len - 1) * strides[axis] + (axes[axis] - len) * strides[axis] == (axes[axis] - 1) * strides[axis])
                by (nonlinear_arith);
        }
    }
}

/// Replacing one axis by a `(count, size)` window pair with strides
/// `outer` and `inner` trades that axis's reach for the pair's.
pub proof fn lemma_reach_windowed(
    axes: Seq<usize>,
    strides: Seq<usize>,
    axis: int,
    count: usize,
    size: usize,
    outer: usize,
    inner: usize,
    k: int,
)
    requires
        strides.len() == axes.len(),
        0 <= axis < axes.len(),
        0 <= k <= axes.len() + 1,
    ensures
        ({
            let windowed = reach_from(
                axes.update(axis, count).insert(axis + 1, size),
                strides.update(axis, outer).insert(axis + 1, inner),
                k,
            );
            &&& k <= axis ==> windowed == reach_from(axes, strides, k) - (axes[axis] - 1) * strides[axis]
                + (count - 1) * outer + (size - 1) * inner
            &&& k == axis + 1 ==> windowed == (size - 1) * inner + reach_from(axes, strides, axis + 1)
            &&& k > axis + 1 ==> windowed == reach_from(axes, strides, k - 1)
        }),
    decreases axes.len() + 1 - k,
{
    let wide = axes.update(axis, count).insert(axis + 1, size);
    let steps = strides.update(axis, outer).insert(axis + 1, inner);
    if k < axes.len() + 1 {
        lemma_reach_windowed(axes, strides, axis, count, size, outer, inner, k + 1);
        if k < axis {
            assert(wide[k] == axes[k] && steps[k] == strides[k]);
        } else if k == axis {
            assert(wide[k] == count && steps[k] == outer);
            assert(reach_from(axes, strides, k) == (axes[axis] - 1) * strides[axis] + reach_from(axes, strides, k + 1));
        } else if k == axis + 1 {
            assert(wide[k] == size && steps[k] == inner);
        } else {
            assert(wide[k] == axes[k - 1] && steps[k] == strides[k - 1]);
        }
    }
}

/// The address of a windowed multi-index under the window strides is
/// the address of the operand multi-index it reads, provided each
/// window stride is `step`, respectively `dilation`, strides of the
/// axis wherever its coordinate moves.
pub proof fn lemma_dot_windowed(
    index: Seq<nat>,
    strides: Seq<usize>,
    axis: int,
    step: nat,
    dilation: nat,
    outer: usize,
    inner: usize,
    k: int,
)
    requires
        index.len() == strides.len() + 1,
        0 <= axis < strides.len(),
        0 <= k <= index.len(),
        index[axis] * (outer as nat) == index[axis] * (step * (strides[axis] as nat)),
        index[axis + 1] * (inner as nat) == index[axis + 1] * (dilation * (strides[axis] as nat)),
    ensures
        ({
            let source = index.remove(axis + 1).update(axis, index[axis] * step + index[axis + 1] * dilation);
            let steps = strides.update(axis, outer).insert(axis + 1, inner);
            &&& k <= axis ==> dot_from(index, steps, k) == dot_from(source, strides, k)
            &&& k == axis + 1 ==> dot_from(index, steps, k) == index[axis + 1] * (inner as nat) + dot_from(source, strides, axis + 1)
            &&& k > axis + 1 ==> dot_from(index, steps, k) == dot_from(source, strides, k - 1)
        }),
    decreases index.len() - k,
{
    let source = index.remove(axis + 1).update(axis, index[axis] * step + index[axis + 1] * dilation);
    let steps = strides.update(axis, outer).insert(axis + 1, inner);
    if k < index.len() {
        lemma_dot_windowed(index, strides, axis, step, dilation, outer, inner, k + 1);
        if k < axis {
            assert(steps[k] == strides[k] && source[k] == index[k]);
        } else if k == axis {
            assert(steps[k] == outer);
            let along = strides[axis] as nat;
            let window = index[axis];
            let within = index[axis + 1];
            assert((window * step + within * dilation) * along == window * (step * along) + within * (dilation * along))
                by (nonlinear_arith);
            assert(source[k] == window * step + within * dilation);
        } else if k == axis + 1 {
            assert(steps[k] == inner);
        } else {
            assert(steps[k] == strides[k - 1] && source[k - 1] == index[k]);
        }
    }
}

/// Shrinking one extent never grows a suffix product.
pub proof fn lemma_suffix_narrowed(axes: Seq<usize>, axis: int, len: usize, k: int)
    requires
        0 <= axis < axes.len(),
        len <= axes[axis],
        0 <= k <= axes.len(),
    ensures
        suffix_product(axes.update(axis, len), k) <= suffix_product(axes, k),
    decreases axes.len() - k,
{
    if k < axes.len() {
        lemma_suffix_narrowed(axes, axis, len, k + 1);
        let narrow_inner = suffix_product(axes.update(axis, len), k + 1) as int;
        let inner = suffix_product(axes, k + 1) as int;
        if k == axis {
            assert(len * narrow_inner <= axes[axis] * inner) by (nonlinear_arith)
                requires len <= axes[axis], narrow_inner <= inner, 0 <= len, 0 <= narrow_inner;
        } else {
            assert(axes[k] * narrow_inner <= axes[k] * inner) by (nonlinear_arith)
                requires narrow_inner <= inner, 0 <= axes[k];
        }
    }
}

} // verus!

verus! {

/// Reaching `target[t..]` from `source[s..]` by unit axes keeps the
/// suffix product: extent-one axes multiply by one.
pub proof fn lemma_unit_view_products(target: Seq<usize>, source: Seq<usize>, strides: Seq<usize>, t: int, s: int)
    requires
        unit_view_strides(target, source, strides, t, s) is Some,
    ensures
        suffix_product(target, t) == suffix_product(source, s),
    decreases target.len() - t + source.len() - s,
{
    if s < source.len() && source[s] == 1 {
        lemma_unit_view_products(target, source, strides, t, s + 1);
        vstd::arithmetic::mul::lemma_mul_basics(suffix_product(source, s + 1) as int);
    } else if t == target.len() {
    } else if target[t] == 1 {
        lemma_unit_view_products(target, source, strides, t + 1, s);
        vstd::arithmetic::mul::lemma_mul_basics(suffix_product(target, t + 1) as int);
    } else {
        lemma_unit_view_products(target, source, strides, t + 1, s + 1);
    }
}

/// The unit-axis view addresses every logical position where the source
/// layout does, from the matched axes on.
pub proof fn lemma_unit_view_address(
    target: Seq<usize>,
    source: Seq<usize>,
    strides: Seq<usize>,
    view: Seq<usize>,
    position: nat,
    t: int,
    s: int,
)
    requires
        strides.len() == source.len(),
        view.len() == target.len(),
        0 <= t <= target.len(),
        0 <= s <= source.len(),
        unit_view_strides(target, source, strides, t, s) == Some(view.skip(t)),
    ensures
        address_from(target, view, position, t) == address_from(source, strides, position, s),
        reach_from(target, view, t) == reach_from(source, strides, s),
    decreases target.len() - t + source.len() - s,
{
    if s < source.len() && source[s] == 1 {
        lemma_unit_view_address(target, source, strides, view, position, t, s + 1);
        lemma_mod_bound((position / suffix_product(source, s + 1)) as int, 1);
        vstd::arithmetic::mul::lemma_mul_basics(strides[s] as int);
    } else if t == target.len() {
    } else if target[t] == 1 {
        let rest = unit_view_strides(target, source, strides, t + 1, s)->0;
        assert(view.skip(t) == seq![0usize] + rest);
        assert(view.skip(t)[0] == view[t]);
        assert((seq![0usize] + rest)[0] == 0);
        assert(view[t] == 0);
        assert forall|i: int| 0 <= i < rest.len() implies #[trigger] view.skip(t + 1)[i] == rest[i] by {
            assert(view.skip(t)[i + 1] == view[t + 1 + i]);
            assert((seq![0usize] + rest)[i + 1] == rest[i]);
        }
        assert(view.skip(t + 1) =~= rest);
        lemma_unit_view_address(target, source, strides, view, position, t + 1, s);
        vstd::arithmetic::mul::lemma_mul_basics(coordinate(target, position, t) as int);
    } else {
        let rest = unit_view_strides(target, source, strides, t + 1, s + 1)->0;
        assert(view.skip(t) == seq![strides[s]] + rest);
        assert(view.skip(t)[0] == view[t]);
        assert((seq![strides[s]] + rest)[0] == strides[s]);
        assert(view[t] == strides[s]);
        assert forall|i: int| 0 <= i < rest.len() implies #[trigger] view.skip(t + 1)[i] == rest[i] by {
            assert(view.skip(t)[i + 1] == view[t + 1 + i]);
            assert((seq![strides[s]] + rest)[i + 1] == rest[i]);
        }
        assert(view.skip(t + 1) =~= rest);
        lemma_unit_view_address(target, source, strides, view, position, t + 1, s + 1);
        lemma_unit_view_products(target, source, strides, t + 1, s + 1);
    }
}

} // verus!

verus! {

/// A unit-axis view pairs one stride with every remaining target axis.
pub proof fn lemma_unit_view_length(target: Seq<usize>, source: Seq<usize>, strides: Seq<usize>, t: int, s: int)
    requires
        unit_view_strides(target, source, strides, t, s) is Some,
    ensures
        unit_view_strides(target, source, strides, t, s)->0.len() == target.len() - t,
    decreases target.len() - t + source.len() - s,
{
    if s < source.len() && source[s] == 1 {
        lemma_unit_view_length(target, source, strides, t, s + 1);
    } else if t == target.len() {
    } else if target[t] == 1 {
        lemma_unit_view_length(target, source, strides, t + 1, s);
    } else {
        lemma_unit_view_length(target, source, strides, t + 1, s + 1);
    }
}

} // verus!
