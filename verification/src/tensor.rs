//! A tensor: an immutable, runtime-shaped payload whose elements are read
//! in logical row-major order through one of the storage representations.

use std::sync::Arc;

use vstd::prelude::*;

use crate::inline::Strides;
use crate::layout::{
    lemma_unit_view_address, lemma_unit_view_length, reshaped, unit_view_strides, coordinates, dot_from, flatten, lemma_address_is_dot, lemma_address_of_flatten, lemma_coordinates_within,
    lemma_dot_insert_zero, lemma_dot_shift, lemma_dot_windowed, lemma_reach_windowed, window_count, lemma_reach_covers_axis, lemma_reach_insert_zero, lemma_reach_narrowed,
    lemma_suffix_narrowed, swap_axes, within, lemma_outer_volume, lemma_run_element, law_run_offsets_start_runs, outer, addressable, address_from, contiguous_on, coordinate, is_row_major, lemma_address_bound, lemma_address_monotone,
    lemma_address_window, lemma_maxed_remainder, lemma_odometer_step, lemma_zero_address, law_contiguous_index_is_identity,
    law_row_major_is_contiguous, maxed_from, reach_from, storage_address, zero_from, Layout,
};
use crate::op::permute::{appears, is_permutation, lemma_permutation_is_onto, permuted};
use crate::reorder::{lemma_permuted_dot, lemma_permuted_fits, lemma_permuted_reach};
use crate::shape::{all_positive, fits, lemma_prefix_same_head, lemma_suffix_same_shift, lemma_suffix_same_tail, lemma_volume_split, prefix_product, suffix_product, volume_of, Shape};
use crate::storage::Storage;

verus! {

/// A tensor with an immutable, runtime-defined [`Shape`] and a shared
/// element buffer read through a strided layout.
///
/// The elements are held behind a [`Storage`] representation: an
/// `Arc`-shared row-major buffer addressed by strides and an offset, a
/// non-allocating constant, or a one-hot selection. Cloning shares the
/// buffer. Every tensor holds at least one element.
#[derive(Debug)]
pub struct Tensor<Element> {
    storage: Storage<Element>,
}

/// The elements a dense buffer `data` holds under `layout`, in logical
/// row-major order.
pub open spec fn gathered<Element>(data: Seq<Element>, layout: (Seq<usize>, Seq<usize>, nat)) -> Seq<Element> {
    Seq::new(volume_of(layout.0), |position: int| data[storage_address(layout, position as nat) as int])
}

/// The elements of the one-hot `[indices.len(), vocab]` selection, in
/// logical row-major order.
pub open spec fn selected<Element>(indices: Seq<usize>, vocab: nat, zero: Element, one: Element) -> Seq<Element> {
    Seq::new(
        indices.len() * vocab,
        |position: int| if indices[position / vocab as int] as int == position % vocab as int { one } else { zero },
    )
}

/// Over positive extents, a row-major or contiguous stride row reaches
/// exactly one short of the suffix product.
proof fn lemma_contiguous_reach(axes: Seq<usize>, strides: Seq<usize>, k: int)
    requires
        0 <= k <= axes.len(),
        strides.len() == axes.len(),
        all_positive(axes),
        contiguous_on(axes, strides),
    ensures
        reach_from(axes, strides, k) == suffix_product(axes, k) - 1,
    decreases axes.len() - k,
{
    if k < axes.len() {
        lemma_contiguous_reach(axes, strides, k + 1);
        let extent = axes[k] as int;
        let inner = suffix_product(axes, k + 1) as int;
        if extent != 1 {
            assert(strides[k] == inner);
        }
        assert((extent - 1) * inner + inner == extent * inner) by (nonlinear_arith);
        assert((extent - 1) * strides[k] == (extent - 1) * inner) by {
            if extent == 1 {
                assert((extent - 1) * strides[k] == 0) by (nonlinear_arith)
                    requires extent == 1;
                assert((extent - 1) * inner == 0) by (nonlinear_arith)
                    requires extent == 1;
            }
        }
    }
}

/// A positive volume has only positive extents.
proof fn lemma_positive_extents(axes: Seq<usize>, k: int)
    requires
        0 <= k,
        suffix_product(axes, k) > 0,
    ensures
        forall|j: int| k <= j < axes.len() ==> #[trigger] axes[j] > 0,
    decreases axes.len() - k,
{
    if k < axes.len() {
        let extent = axes[k] as nat;
        let inner = suffix_product(axes, k + 1);
        assert(extent > 0 && inner > 0) by (nonlinear_arith)
            requires extent * inner > 0;
        lemma_positive_extents(axes, k + 1);
    }
}

impl<Element> Tensor<Element> {
    /// The tensor's logical shape.
    pub closed spec fn shape_spec(&self) -> Seq<usize> {
        match self.storage {
            Storage::Dense { layout, .. } => layout@.0,
            Storage::Constant { shape, .. } => shape@,
            Storage::Selection { shape, .. } => shape@,
        }
    }

    /// The tensor's elements in logical row-major order.
    pub closed spec fn elements(&self) -> Seq<Element> {
        match self.storage {
            Storage::Dense { data, layout } => gathered(data@, layout@),
            Storage::Constant { shape, value } => Seq::new(volume_of(shape@), |position: int| value),
            Storage::Selection { indices, shape, zero, one } => selected(indices@, shape@[1] as nat, zero, one),
        }
    }

    /// Whether the tensor is stored as a contiguous dense buffer.
    pub closed spec fn is_contiguous_spec(&self) -> bool {
        match self.storage {
            Storage::Dense { layout, .. } => contiguous_on(layout@.0, layout@.1),
            _ => false,
        }
    }

    /// The buffer window and rebased layout of a strided dense view that
    /// computes fewer elements than its volume: the buffer from the view's
    /// offset through its farthest address, read from offset zero; `None`
    /// for any other storage, a contiguous buffer, or a view whose window
    /// is no narrower than its volume.
    pub closed spec fn strided_window_spec(&self) -> Option<(Seq<Element>, (Seq<usize>, Seq<usize>, nat))> {
        match self.storage {
            Storage::Dense { data, layout } => {
                let span = reach_from(layout@.0, layout@.1, 0) + 1;
                if contiguous_on(layout@.0, layout@.1) || span >= volume_of(layout@.0) {
                    None
                } else {
                    Some((data@.subrange(layout@.2 as int, layout@.2 + span), (layout@.0, layout@.1, 0nat)))
                }
            },
            _ => None,
        }
    }

    /// Whether the tensor is stored as a non-allocating constant fill.
    pub closed spec fn is_constant_spec(&self) -> bool {
        self.storage is Constant
    }

    /// The row indices of a tensor stored as a one-hot selection, and
    /// `None` for any other representation.
    pub closed spec fn selection_spec(&self) -> Option<Seq<usize>> {
        match self.storage {
            Storage::Selection { indices, .. } => Some(indices@),
            _ => None,
        }
    }

    /// Every representation answers for a representable, positive volume
    /// and addresses only what it holds.
    #[verifier::type_invariant]
    closed spec fn coherent(&self) -> bool {
        match self.storage {
            Storage::Dense { data, layout } => {
                &&& addressable(layout@)
                &&& fits(layout@.0)
                &&& layout@.2 + reach_from(layout@.0, layout@.1, 0) < data@.len()
            },
            Storage::Constant { shape, .. } => fits(shape@) && volume_of(shape@) > 0,
            Storage::Selection { indices, shape, .. } => {
                &&& shape@.len() == 2
                &&& shape@[0] == indices@.len()
                &&& shape@[1] > 0
                &&& indices@.len() > 0
                &&& fits(shape@)
                &&& forall|row: int| 0 <= row < indices@.len() ==> #[trigger] indices@[row] < shape@[1]
            },
        }
    }

    /// The facts every tensor carries: a representable, positive volume,
    /// one logical element per position.
    proof fn lemma_coherent(&self)
        requires
            self.coherent(),
        ensures
            fits(self.shape_spec()),
            volume_of(self.shape_spec()) > 0,
            all_positive(self.shape_spec()),
            self.elements().len() == volume_of(self.shape_spec()),
    {
        match self.storage {
            Storage::Dense { data, layout } => {
                crate::shape::lemma_suffix_product_positive(layout@.0, 0);
            },
            Storage::Constant { shape, .. } => {
                lemma_positive_extents(shape@, 0);
            },
            Storage::Selection { indices, shape, .. } => {
                assert(suffix_product(shape@, 2) == 1);
                assert(suffix_product(shape@, 1) == shape@[1] as nat * 1);
                assert(volume_of(shape@) == shape@[0] as nat * shape@[1] as nat);
                assert(volume_of(shape@) > 0) by (nonlinear_arith)
                    requires volume_of(shape@) == shape@[0] as nat * shape@[1] as nat, shape@[0] > 0, shape@[1] > 0;
                lemma_positive_extents(shape@, 0);
            },
        }
    }

    /// Returns the shape of this tensor: its extent along every axis.
    pub fn shape(&self) -> (shape: Shape)
        ensures
            shape@ == self.shape_spec(),
            fits(shape@),
            volume_of(shape@) > 0,
            all_positive(shape@),
            self.elements().len() == volume_of(shape@),
    {
        proof {
            use_type_invariant(self);
            self.lemma_coherent();
        }
        match &self.storage {
            Storage::Dense { layout, .. } => layout.shape().clone(),
            Storage::Constant { shape, .. } => shape.clone(),
            Storage::Selection { shape, .. } => shape.clone(),
        }
    }

    /// Returns the repeated value when this tensor is stored as a
    /// non-allocating constant fill: a representation fact, so a dense
    /// buffer that happens to hold one value throughout answers `None`.
    pub fn as_constant(&self) -> (value: Option<&Element>)
        ensures
            value is Some <==> self.is_constant_spec(),
            value matches Some(value) ==> forall|position: int|
                0 <= position < self.elements().len() ==> #[trigger] self.elements()[position] == *value,
    {
        match &self.storage {
            Storage::Constant { value, .. } => Some(value),
            _ => None,
        }
    }

    /// Returns the elements as a contiguous slice when the tensor is
    /// stored as a contiguous dense buffer, or `None` for a strided view,
    /// a constant or a selection.
    pub fn as_slice(&self) -> (elements: Option<&[Element]>)
        ensures
            elements is Some <==> self.is_contiguous_spec(),
            elements matches Some(slice) ==> slice@ == self.elements(),
    {
        proof {
            use_type_invariant(self);
        }
        match &self.storage {
            Storage::Dense { data, layout } => {
                if layout.is_contiguous() {
                    let start = layout.offset();
                    let volume = layout.volume();
                    let size = data.len();
                    proof {
                        crate::shape::lemma_suffix_product_positive(layout@.0, 0);
                        lemma_contiguous_reach(layout@.0, layout@.1, 0);
                        assert(volume == reach_from(layout@.0, layout@.1, 0) + 1);
                        assert(start + volume <= data@.len());
                    }
                    let window = vstd::slice::slice_subrange(data.as_slice(), start, start + volume);
                    proof {
                        assert forall|position: int| 0 <= position < volume implies
                            #[trigger] window@[position] == gathered(data@, layout@)[position] by {
                            law_contiguous_index_is_identity(layout@, position as nat);
                        }
                        assert(window@ =~= gathered(data@, layout@));
                    }
                    Some(window)
                } else {
                    None
                }
            },
            _ => None,
        }
    }

    /// Returns the element at logical row-major `position`.
    pub fn get(&self, position: usize) -> (element: &Element)
        requires
            position < self.elements().len(),
        ensures
            *element == self.elements()[position as int],
    {
        proof {
            use_type_invariant(self);
            self.lemma_coherent();
        }
        match &self.storage {
            Storage::Dense { data, layout } => {
                let index = layout.storage_index(position);
                proof {
                    lemma_address_bound(layout@.0, layout@.1, position as nat, 0);
                }
                &data[index]
            },
            Storage::Constant { value, .. } => value,
            Storage::Selection { indices, shape, zero, one } => {
                let vocab = shape.axes()[1];
                proof {
                    let count = indices@.len();
                    assert(position < count * vocab);
                    vstd::arithmetic::div_mod::lemma_div_is_ordered_by_denominator(position as int, vocab as int, vocab as int);
                    assert(position / vocab < count) by (nonlinear_arith)
                        requires position < count * vocab, vocab > 0;
                }
                if indices[position / vocab] == position % vocab {
                    one
                } else {
                    zero
                }
            },
        }
    }

    /// Returns the rank-0 tensor's single element.
    pub fn scalar(&self) -> (element: &Element)
        requires
            self.shape_spec().len() == 0,
        ensures
            *element == self.elements()[0],
    {
        proof {
            use_type_invariant(self);
            self.lemma_coherent();
        }
        self.get(0)
    }
}

impl<Element> Tensor<Element> {
    /// Creates a tensor of `shape` from `elements` in row-major order. The
    /// shape's volume must be representable, positive, and the number of
    /// elements.
    pub fn new(shape: Shape, elements: Vec<Element>) -> (tensor: Tensor<Element>)
        requires
            fits(shape@),
            volume_of(shape@) == elements@.len(),
            elements@.len() > 0,
        ensures
            tensor.shape_spec() == shape@,
            tensor.elements() == elements@,
            tensor.is_contiguous_spec(),
    {
        Self::dense(shape, elements)
    }

    /// Builds a contiguous dense tensor of `shape` from `elements`.
    fn dense(shape: Shape, elements: Vec<Element>) -> (tensor: Tensor<Element>)
        requires
            fits(shape@),
            volume_of(shape@) == elements@.len(),
            elements@.len() > 0,
        ensures
            tensor.shape_spec() == shape@,
            tensor.elements() == elements@,
            tensor.is_contiguous_spec(),
    {
        let layout = Layout::contiguous(shape);
        proof {
            lemma_positive_extents(layout@.0, 0);
            law_row_major_is_contiguous(layout@.0, layout@.1);
            lemma_contiguous_reach(layout@.0, layout@.1, 0);
            assert forall|position: int| 0 <= position < elements@.len() implies
                #[trigger] gathered(elements@, layout@)[position] == elements@[position] by {
                law_contiguous_index_is_identity(layout@, position as nat);
            }
            assert(gathered(elements@, layout@) =~= elements@);
        }
        Tensor { storage: Storage::Dense { data: Arc::new(elements), layout } }
    }

    /// Creates a tensor of `shape` with every element set to `element`,
    /// stored as a non-allocating constant.
    pub fn filled(shape: Shape, element: Element) -> (tensor: Tensor<Element>)
        requires
            fits(shape@),
            volume_of(shape@) > 0,
        ensures
            tensor.shape_spec() == shape@,
            tensor.elements() == Seq::new(volume_of(shape@), |position: int| element),
            tensor.is_constant_spec(),
    {
        Tensor { storage: Storage::Constant { shape, value: element } }
    }

    /// Creates the one-hot `[indices.len(), vocab]` selection whose row
    /// `i` is `one` at column `indices[i]` and `zero` elsewhere, stored as
    /// its indices.
    pub fn selection(indices: Vec<usize>, vocab: usize, one: Element, zero: Element) -> (tensor: Tensor<Element>)
        requires
            vocab > 0,
            indices@.len() > 0,
            indices@.len() * vocab <= usize::MAX,
            forall|row: int| 0 <= row < indices@.len() ==> #[trigger] indices@[row] < vocab,
        ensures
            tensor.shape_spec() == seq![indices@.len() as usize, vocab],
            tensor.elements() == selected(indices@, vocab as nat, zero, one),
            tensor.selection_spec() == Some(indices@),
    {
        let count = indices.len();
        let shape = Shape::new(vec![count, vocab]);
        proof {
            assert(suffix_product(shape@, 2) == 1);
            assert(suffix_product(shape@, 1) == vocab as nat * 1);
            assert(suffix_product(shape@, 0) == count as nat * vocab as nat);
            assert(fits(shape@)) by {
                assert forall|k: int| 0 <= k <= shape@.len() implies #[trigger] suffix_product(shape@, k) <= usize::MAX by {
                    assert(vocab <= count * vocab) by (nonlinear_arith)
                        requires count > 0;
                }
            }
        }
        Tensor { storage: Storage::Selection { indices: Arc::new(indices), shape, zero, one } }
    }
}


/// An odometer over a strided view: the multi-index of the current
/// logical position, advanced innermost axis first, and the flat index
/// it addresses.
struct Odometer<'tensor> {
    shape: &'tensor [usize],
    strides: &'tensor [usize],
    coordinates: Strides,
    index: usize,
    remaining: usize,
    position: Ghost<nat>,
    base: Ghost<nat>,
}

impl<'tensor> Odometer<'tensor> {
    /// The coordinates track the current position and the index its
    /// address while positions remain; every address stays in range.
    spec fn valid(&self) -> bool {
        &&& self.strides@.len() == self.shape@.len()
        &&& self.coordinates@.len() == self.shape@.len()
        &&& all_positive(self.shape@)
        &&& self.position@ + self.remaining == volume_of(self.shape@)
        &&& self.base@ + reach_from(self.shape@, self.strides@, 0) <= usize::MAX
        &&& self.remaining > 0 ==> {
            &&& forall|k: int| 0 <= k < self.shape@.len() ==> #[trigger] self.coordinates@[k] == coordinate(self.shape@, self.position@, k)
            &&& self.index == self.base@ + address_from(self.shape@, self.strides@, self.position@, 0)
        }
    }

    /// Steps to the next logical position: the innermost axis advances,
    /// carrying into the outer axes, and the index moves by the stride of
    /// whichever axis moved.
    fn advance(&mut self)
        requires
            old(self).valid(),
            old(self).remaining > 0,
        ensures
            final(self).valid(),
            final(self).remaining == old(self).remaining - 1,
            final(self).position@ == old(self).position@ + 1,
            final(self).shape@ == old(self).shape@,
            final(self).strides@ == old(self).strides@,
            final(self).base@ == old(self).base@,
    {
        let ghost position = self.position@;
        let ghost axes = self.shape@;
        let ghost strides = self.strides@;
        let ghost base = self.base@;
        self.remaining = self.remaining - 1;
        let ghost left = self.remaining;
        if self.remaining > 0 {
            let mut axis = self.shape.len();
            proof {
                lemma_address_bound(axes, strides, position, 0);
                lemma_address_bound(axes, strides, position + 1, 0);
            }
            loop
                invariant_except_break
                    axis <= axes.len(),
                    maxed_from(axes, position, axis as int),
                    forall|k: int| axis <= k < axes.len() ==> #[trigger] self.coordinates@[k] == 0,
                    forall|k: int| 0 <= k < axis ==> #[trigger] self.coordinates@[k] == coordinate(axes, position, k),
                    self.index + address_from(axes, strides, position, axis as int) == base + address_from(axes, strides, position, 0),
                invariant
                    self.remaining == left,
                    self.shape@ == axes,
                    self.strides@ == strides,
                    self.base@ == base,
                    self.position@ == position,
                    strides.len() == axes.len(),
                    self.coordinates@.len() == axes.len(),
                    all_positive(axes),
                    position + 1 < volume_of(axes),
                    base + reach_from(axes, strides, 0) <= usize::MAX,
                    address_from(axes, strides, position, 0) <= reach_from(axes, strides, 0),
                    address_from(axes, strides, position + 1, 0) <= reach_from(axes, strides, 0),
                ensures
                    forall|k: int| 0 <= k < axes.len() ==> #[trigger] self.coordinates@[k] == coordinate(axes, position + 1, k),
                    self.index == base + address_from(axes, strides, position + 1, 0),
                decreases axis,
            {
                if axis == 0 {
                    proof {
                        lemma_maxed_remainder(axes, position, 0);
                        vstd::arithmetic::div_mod::lemma_small_mod(position, volume_of(axes));
                    }
                    assert(false);
                }
                axis = axis - 1;
                let extent = self.shape[axis];
                let stride = self.strides[axis];
                let digit = self.coordinates.as_slice()[axis];
                proof {
                    assert(extent > 0);
                    crate::shape::lemma_suffix_product_positive(axes, axis + 1);
                    vstd::arithmetic::div_mod::lemma_mod_bound((position / suffix_product(axes, axis + 1)) as int, extent as int);
                    lemma_address_monotone(axes, strides, position, 0, axis as int);
                    assert(address_from(axes, strides, position, axis as int)
                        == digit * stride + address_from(axes, strides, position, axis + 1));
                }
                if digit + 1 < extent {
                    proof {
                        lemma_odometer_step(axes, position, axis as int);
                        lemma_zero_address(axes, strides, position + 1, axis + 1);
                        lemma_address_window(axes, strides, position, position + 1, 0, axis as int);
                        assert(address_from(axes, strides, position + 1, axis as int)
                            == (digit + 1) * stride + address_from(axes, strides, position + 1, axis + 1));
                        assert((digit + 1) * stride == digit * stride + stride) by (nonlinear_arith);
                    }
                    self.coordinates.set(axis, digit + 1);
                    self.index = self.index + stride;
                    proof {
                        assert forall|k: int| 0 <= k < axes.len() implies #[trigger] self.coordinates@[k] == coordinate(axes, position + 1, k) by {
                            if k > axis {
                                assert(zero_from(axes, position + 1, axis + 1));
                            }
                        }
                    }
                    break;
                }
                proof {
                    assert(digit * stride <= address_from(axes, strides, position, axis as int)) by {
                        lemma_address_monotone(axes, strides, position, axis as int, axis + 1);
                    }
                }
                let carried = (extent - 1) * stride;
                self.index = self.index - carried;
                self.coordinates.set(axis, 0);
            }
        }
        self.position = Ghost(position + 1);
    }
}

/// A walk over a tensor's elements in logical row-major order; each
/// variant mirrors a storage representation.
enum Walk<'tensor, Element> {
    Constant { value: &'tensor Element, remaining: usize },
    Contiguous { elements: &'tensor [Element], next: usize },
    Strided { data: &'tensor [Element], odometer: Odometer<'tensor> },
    Selection {
        indices: &'tensor [usize],
        vocab: usize,
        zero: &'tensor Element,
        one: &'tensor Element,
        position: usize,
        total: usize,
    },
}

/// The elements of a tensor in logical row-major order, handed out one
/// at a time by [`ElementIter::next`].
pub struct ElementIter<'tensor, Element> {
    walk: Walk<'tensor, Element>,
}

impl<'tensor, Element> ElementIter<'tensor, Element> {
    /// The elements still to come, in order.
    pub closed spec fn rest(&self) -> Seq<Element> {
        match self.walk {
            Walk::Constant { value, remaining } => Seq::new(remaining as nat, |j: int| *value),
            Walk::Contiguous { elements, next } => elements@.skip(next as int),
            Walk::Strided { data, odometer } => Seq::new(
                odometer.remaining as nat,
                |j: int| data@[(odometer.base@ + address_from(odometer.shape@, odometer.strides@, (odometer.position@ + j) as nat, 0)) as int],
            ),
            Walk::Selection { indices, vocab, zero, one, position, total } => Seq::new(
                (total - position) as nat,
                |j: int| if indices@[(position + j) / vocab as int] as int == (position + j) % vocab as int { *one } else { *zero },
            ),
        }
    }

    /// The walk's bookkeeping is consistent and every element it will
    /// read lies in its buffer.
    pub closed spec fn valid(&self) -> bool {
        match self.walk {
            Walk::Constant { .. } => true,
            Walk::Contiguous { elements, next } => next <= elements@.len(),
            Walk::Strided { data, odometer } => {
                &&& odometer.valid()
                &&& odometer.base@ + reach_from(odometer.shape@, odometer.strides@, 0) < data@.len()
            },
            Walk::Selection { indices, vocab, position, total, .. } => {
                &&& vocab > 0
                &&& position <= total
                &&& total == indices@.len() * vocab
            },
        }
    }
}

impl<'tensor, Element: Copy> ElementIter<'tensor, Element> {
    /// Returns the next element in logical row-major order, or `None`
    /// once every element was handed out.
    pub fn next(&mut self) -> (element: Option<Element>)
        requires
            old(self).valid(),
        ensures
            final(self).valid(),
            old(self).rest().len() == 0 ==> element is None && final(self).rest() == old(self).rest(),
            old(self).rest().len() > 0 ==> element == Some(old(self).rest()[0])
                && final(self).rest() == old(self).rest().drop_first(),
    {
        match &mut self.walk {
            Walk::Constant { value, remaining } => {
                if *remaining == 0 {
                    return None;
                }
                *remaining = *remaining - 1;
                Some(**value)
            },
            Walk::Contiguous { elements, next } => {
                if *next >= elements.len() {
                    return None;
                }
                let element = elements[*next];
                *next = *next + 1;
                Some(element)
            },
            Walk::Strided { data, odometer } => {
                if odometer.remaining == 0 {
                    return None;
                }
                proof {
                    lemma_address_bound(odometer.shape@, odometer.strides@, odometer.position@, 0);
                }
                let element = data[odometer.index];
                odometer.advance();
                Some(element)
            },
            Walk::Selection { indices, vocab, zero, one, position, total } => {
                if *position >= *total {
                    return None;
                }
                let row = *position / *vocab;
                let column = *position % *vocab;
                proof {
                    assert(row < indices@.len()) by (nonlinear_arith)
                        requires row == *position / *vocab, *position < indices@.len() * *vocab, *vocab > 0;
                }
                *position = *position + 1;
                if indices[row] == column {
                    Some(**one)
                } else {
                    Some(**zero)
                }
            },
        }
    }
}


impl<Element> Tensor<Element> {
    /// Returns a walk over the elements in logical row-major order: a
    /// contiguous buffer walks its slice, a strided view walks its layout
    /// with an odometer, a constant repeats its value, and a selection
    /// computes each element from its row index.
    pub fn iter(&self) -> (walk: ElementIter<'_, Element>)
        ensures
            walk.valid(),
            walk.rest() == self.elements(),
    {
        proof {
            use_type_invariant(self);
            self.lemma_coherent();
        }
        match &self.storage {
            Storage::Constant { shape, value } => {
                let remaining = shape.volume();
                let walk = ElementIter { walk: Walk::Constant { value, remaining } };
                proof {
                    assert(walk.rest() =~= self.elements());
                }
                walk
            },
            Storage::Dense { data, layout } => {
                if layout.is_contiguous() {
                    let window = match self.as_slice() {
                        Some(window) => window,
                        None => {
                            assert(false);
                            data.as_slice()
                        },
                    };
                    let walk = ElementIter { walk: Walk::Contiguous { elements: window, next: 0 } };
                    proof {
                        assert(window@.skip(0) =~= window@);
                    }
                    walk
                } else {
                    let rank = layout.rank();
                    let mut zeros: Vec<usize> = Vec::new();
                    while zeros.len() < rank
                        invariant
                            zeros@.len() <= rank,
                            forall|k: int| 0 <= k < zeros@.len() ==> #[trigger] zeros@[k] == 0,
                        decreases rank - zeros@.len(),
                    {
                        zeros.push(0);
                    }
                    let axes = layout.shape().axes();
                    let strides = layout.strides();
                    let offset = layout.offset();
                    let volume = layout.volume();
                    proof {
                        assert forall|k: int| 0 <= k < axes@.len() implies #[trigger] coordinate(axes@, 0, k) == 0 by {
                            crate::shape::lemma_suffix_product_positive(axes@, k + 1);
                            vstd::arithmetic::div_mod::lemma_div_of0(suffix_product(axes@, k + 1) as int);
                            vstd::arithmetic::div_mod::lemma_small_mod(0, axes@[k] as nat);
                        }
                        assert(zero_from(axes@, 0, 0));
                        lemma_zero_address(axes@, strides@, 0, 0);
                        crate::layout::lemma_reach_nonnegative(axes@, strides@, 0);
                    }
                    let odometer = Odometer {
                        shape: axes,
                        strides,
                        coordinates: Strides::from_vec(zeros),
                        index: offset,
                        remaining: volume,
                        position: Ghost(0),
                        base: Ghost(offset as nat),
                    };
                    let walk = ElementIter { walk: Walk::Strided { data: data.as_slice(), odometer } };
                    proof {
                        assert(walk.rest() =~= self.elements());
                    }
                    walk
                }
            },
            Storage::Selection { indices, shape, zero, one } => {
                let vocab = shape.axes()[1];
                let total = shape.volume();
                proof {
                    assert(suffix_product(shape@, 2) == 1);
                    assert(suffix_product(shape@, 1) == vocab as nat * 1);
                    assert(total == indices@.len() * vocab);
                }
                let walk = ElementIter {
                    walk: Walk::Selection { indices: indices.as_slice(), vocab, zero, one, position: 0, total },
                };
                proof {
                    assert(walk.rest() =~= self.elements());
                }
                walk
            },
        }
    }
}

impl<Element: Copy> Tensor<Element> {
    /// Returns the elements in logical row-major order as an owned vector.
    pub fn to_vec(&self) -> (elements: Vec<Element>)
        ensures
            elements@ == self.elements(),
    {
        let mut walk = self.iter();
        let mut elements: Vec<Element> = Vec::new();
        loop
            invariant
                walk.valid(),
                elements@ + walk.rest() == self.elements(),
            ensures
                elements@ == self.elements(),
            decreases walk.rest().len(),
        {
            let ghost before = walk.rest();
            match walk.next() {
                Some(element) => {
                    elements.push(element);
                    proof {
                        assert(elements@ + walk.rest() =~= self.elements()) by {
                            assert(before =~= seq![element] + before.drop_first());
                        }
                    }
                },
                None => {
                    assert(elements@ =~= self.elements());
                    break;
                },
            }
        }
        elements
    }
}


/// Whether `output` holds `transform` applied to each of `input`, position
/// for position.
pub open spec fn mapped_by<Element, F: Fn(&Element) -> Element>(transform: F, input: Seq<Element>, output: Seq<Element>) -> bool {
    &&& output.len() == input.len()
    &&& forall|position: int| 0 <= position < input.len() ==> transform.ensures((&input[position],), #[trigger] output[position])
}

/// Whether `output` holds `combine` applied to each pair of `left` and
/// `right`, position for position.
pub open spec fn zipped_by<Element, F: Fn(&Element, &Element) -> Element>(
    combine: F,
    left: Seq<Element>,
    right: Seq<Element>,
    output: Seq<Element>,
) -> bool {
    &&& output.len() == left.len()
    &&& forall|position: int|
        0 <= position < left.len() ==> combine.ensures((&left[position], &right[position]), #[trigger] output[position])
}

/// Applies `transform` to every element of `input`, in order.
fn map_slice<Element, F: Fn(&Element) -> Element>(input: &[Element], transform: &F) -> (output: Vec<Element>)
    requires
        forall|element: Element| #[trigger] transform.requires((&element,)),
    ensures
        mapped_by(*transform, input@, output@),
{
    let mut output: Vec<Element> = Vec::new();
    let mut index: usize = 0;
    while index < input.len()
        invariant
            forall|element: Element| #[trigger] transform.requires((&element,)),
            index <= input@.len(),
            output@.len() == index,
            forall|position: int| 0 <= position < index ==> transform.ensures((&input@[position],), #[trigger] output@[position]),
        decreases input@.len() - index,
    {
        output.push(transform(&input[index]));
        index += 1;
    }
    output
}

impl<Element> Tensor<Element> {
    /// Returns the buffer window a strided dense view addresses together
    /// with its layout rebased to the window start, or `None` when the
    /// storage is not a strided view or the window is not strictly
    /// narrower than the volume: only a broadcast view computes fewer
    /// elements and earns staying a view.
    fn strided_window(&self) -> (window: Option<(&[Element], Layout)>)
        ensures
            match self.strided_window_spec() {
                Some((elements, rebased)) => window matches Some((slice, layout)) && slice@ == elements
                    && layout@ == rebased,
                None => window is None,
            },
            window matches Some((slice, layout)) ==> {
                &&& layout@.0 == self.shape_spec()
                &&& layout@.2 == 0
                &&& addressable(layout@)
                &&& fits(layout@.0)
                &&& reach_from(layout@.0, layout@.1, 0) < slice@.len()
                &&& gathered(slice@, layout@) == self.elements()
            },
    {
        proof {
            use_type_invariant(self);
        }
        match &self.storage {
            Storage::Dense { data, layout } => {
                if layout.is_contiguous() {
                    return None;
                }
                let size = data.len();
                let span = layout.span();
                let volume = layout.volume();
                if span >= volume {
                    return None;
                }
                let start = layout.offset();
                let window = vstd::slice::slice_subrange(data.as_slice(), start, start + span);
                let rebased = layout.rebased();
                proof {
                    assert forall|position: int| 0 <= position < volume implies
                        #[trigger] gathered(window@, rebased@)[position] == gathered(data@, layout@)[position] by {
                        lemma_address_bound(layout@.0, layout@.1, position as nat, 0);
                    }
                    assert(gathered(window@, rebased@) =~= gathered(data@, layout@));
                }
                Some((window, rebased))
            },
            _ => None,
        }
    }

}

impl<Element: Copy> Tensor<Element> {
    /// Returns a tensor with every element passed through `transform`.
    ///
    /// A constant maps in place to another constant; a contiguous dense
    /// buffer maps over its slice directly; a strided view narrower than
    /// its volume maps its buffer window and keeps the layout, so a
    /// broadcast view transforms only its distinct elements and stays a
    /// view; everything else materializes in logical order.
    pub fn map<F: Fn(&Element) -> Element>(&self, transform: F) -> (mapped: Tensor<Element>)
        requires
            forall|element: Element| #[trigger] transform.requires((&element,)),
        ensures
            mapped.shape_spec() == self.shape_spec(),
            mapped_by(transform, self.elements(), mapped.elements()),
    {
        proof {
            use_type_invariant(self);
            self.lemma_coherent();
        }
        if let Storage::Constant { shape, value } = &self.storage {
            let result = transform(value);
            let mapped = Tensor { storage: Storage::Constant { shape: shape.clone(), value: result } };
            return mapped;
        }
        if let Some(elements) = self.as_slice() {
            let output = map_slice(elements, &transform);
            return Self::dense(self.shape(), output);
        }
        if let Some((window, layout)) = self.strided_window() {
            let output = map_slice(window, &transform);
            let mapped = Tensor { storage: Storage::Dense { data: Arc::new(output), layout } };
            proof {
                assert forall|position: int| 0 <= position < self.elements().len() implies
                    transform.ensures((&self.elements()[position],), #[trigger] mapped.elements()[position]) by {
                    lemma_address_bound(layout@.0, layout@.1, position as nat, 0);
                }
            }
            return mapped;
        }
        let elements = self.to_vec();
        let output = map_slice(elements.as_slice(), &transform);
        Self::dense(self.shape(), output)
    }
}


/// Whether a dense buffer `data` read through `layout` is a coherent
/// view: a representable, addressable shape whose every address lies in
/// the buffer.
pub open spec fn viewable<Element>(data: Seq<Element>, layout: (Seq<usize>, Seq<usize>, nat)) -> bool {
    &&& addressable(layout)
    &&& fits(layout.0)
    &&& layout.2 + reach_from(layout.0, layout.1, 0) < data.len()
}

/// The innermost extent of a layout: one for rank zero.
pub open spec fn run_extent(axes: Seq<usize>) -> nat {
    if axes.len() == 0 { 1 } else { axes.last() as nat }
}

/// The innermost stride of a layout: one for rank zero.
pub open spec fn run_stride(strides: Seq<usize>) -> nat {
    if strides.len() == 0 { 1 } else { strides.last() as nat }
}

/// Inside innermost run `run`, the element `j` places past its start
/// lies `j` innermost strides past the run's first address, which is the
/// run's offset.
proof fn lemma_run_address_of(layout: (Seq<usize>, Seq<usize>, nat), run: nat, j: nat)
    requires
        addressable(layout),
        j < run_extent(layout.0),
    ensures
        storage_address(layout, run * run_extent(layout.0) + j)
            == storage_address((outer(layout.0), outer(layout.1), layout.2), run) + j * run_stride(layout.1),
{
    law_run_offsets_start_runs(layout, run);
    if layout.0.len() > 0 {
        lemma_run_element(layout.0, layout.1, run, j);
    } else {
        assert(j == 0);
        vstd::arithmetic::mul::lemma_mul_basics(run_stride(layout.1) as int);
    }
}

/// Combines two same-shape dense buffers by innermost-axis runs, or
/// declines with `None` when either innermost stride exceeds one.
///
/// A unit stride walks a run as a slice and a zero stride holds one
/// element for the whole run; both operands advance run by run through
/// their outer-axis offsets in logical order, and a zero-by-zero run
/// computes its one value and repeats it.
fn zipped_runs<Element: Copy, F: Fn(&Element, &Element) -> Element>(
    left: &[Element],
    left_layout: &Layout,
    right: &[Element],
    right_layout: &Layout,
    combine: &F,
) -> (combined: Option<Vec<Element>>)
    requires
        viewable(left@, left_layout@),
        viewable(right@, right_layout@),
        left_layout@.0 == right_layout@.0,
        forall|a: Element, b: Element| #[trigger] combine.requires((&a, &b)),
    ensures
        combined is Some <==> (run_stride(left_layout@.1) <= 1 && run_stride(right_layout@.1) <= 1),
        combined matches Some(combined) ==> zipped_by(
            *combine, gathered(left@, left_layout@), gathered(right@, right_layout@), combined@),
{
    let left_stride = left_layout.inner_stride();
    let right_stride = right_layout.inner_stride();
    if left_stride > 1 || right_stride > 1 {
        return None;
    }
    let extent = left_layout.inner_extent();
    let ghost axes = left_layout@.0;
    let ghost lefts = gathered(left@, left_layout@);
    let ghost rights = gathered(right@, right_layout@);
    proof {
        if axes.len() > 0 {
            lemma_outer_volume(axes);
        } else {
            assert(outer(axes) == axes);
        }
        assert(extent == run_extent(axes));
        assert(left_stride == run_stride(left_layout@.1));
        assert(right_stride == run_stride(right_layout@.1));
        assert(volume_of(outer(axes)) * run_extent(axes) == volume_of(axes));
    }
    let left_runs = left_layout.run_offsets();
    let right_runs = right_layout.run_offsets();
    let mut combined: Vec<Element> = Vec::new();
    let mut run: usize = 0;
    while run < left_runs.len()
        invariant
            viewable(left@, left_layout@),
            viewable(right@, right_layout@),
            left_layout@.0 == axes,
            right_layout@.0 == axes,
            lefts == gathered(left@, left_layout@),
            rights == gathered(right@, right_layout@),
            forall|a: Element, b: Element| #[trigger] combine.requires((&a, &b)),
            extent == run_extent(axes),
            extent > 0,
            left_stride == run_stride(left_layout@.1),
            right_stride == run_stride(right_layout@.1),
            left_stride <= 1,
            right_stride <= 1,
            left_runs@.len() == volume_of(outer(axes)),
            right_runs@.len() == volume_of(outer(axes)),
            volume_of(outer(axes)) * extent == volume_of(axes),
            forall|r: int| 0 <= r < left_runs@.len() ==> #[trigger] left_runs@[r] == storage_address(
                (outer(axes), outer(left_layout@.1), left_layout@.2), r as nat),
            forall|r: int| 0 <= r < right_runs@.len() ==> #[trigger] right_runs@[r] == storage_address(
                (outer(axes), outer(right_layout@.1), right_layout@.2), r as nat),
            run <= left_runs@.len(),
            combined@.len() == run * extent,
            forall|q: int| 0 <= q < combined@.len() ==> combine.ensures((&lefts[q], &rights[q]), #[trigger] combined@[q]),
        decreases left_runs@.len() - run,
    {
        let left_start = left_runs[run];
        let right_start = right_runs[run];
        let ghost first = (run * extent) as int;
        proof {
            vstd::arithmetic::mul::lemma_mul_inequality(run as int + 1, volume_of(outer(axes)) as int, extent as int);
            assert((run as int + 1) * extent == run * extent + extent) by (nonlinear_arith);
        }
        if left_stride == 0 && right_stride == 0 {
            proof {
                lemma_run_address_of(left_layout@, run as nat, 0);
                lemma_run_address_of(right_layout@, run as nat, 0);
                lemma_address_bound(axes, left_layout@.1, (run * extent) as nat, 0);
                lemma_address_bound(axes, right_layout@.1, (run * extent) as nat, 0);
            }
            let value = combine(&left[left_start], &right[right_start]);
            let mut j: usize = 0;
            while j < extent
                invariant
                    0 <= first,
                    j <= extent,
                    combined@.len() == first + j,
                    forall|q: int| 0 <= q < first ==> combine.ensures((&lefts[q], &rights[q]), #[trigger] combined@[q]),
                    forall|q: int| first <= q < combined@.len() ==> #[trigger] combined@[q] == value,
                decreases extent - j,
            {
                let ghost before = combined@;
                combined.push(value);
                assert(combined@ == before.push(value));
                assert forall|q: int| first <= q < combined@.len() implies #[trigger] combined@[q] == value by {
                    if q < before.len() {
                        assert(before.push(value)[q] == before[q]);
                    }
                }
                j += 1;
            }
            proof {
                assert forall|q: int| first <= q < first + extent implies
                    combine.ensures((&lefts[q], &rights[q]), #[trigger] combined@[q]) by {
                    let k = (q - first) as nat;
                    lemma_run_address_of(left_layout@, run as nat, k);
                    lemma_run_address_of(right_layout@, run as nat, k);
                    vstd::arithmetic::mul::lemma_mul_basics(k as int);
                }
            }
        } else {
            let mut j: usize = 0;
            while j < extent
                invariant
                    viewable(left@, left_layout@),
                    viewable(right@, right_layout@),
                    left_layout@.0 == axes,
                    right_layout@.0 == axes,
                    lefts == gathered(left@, left_layout@),
                    rights == gathered(right@, right_layout@),
                    forall|a: Element, b: Element| #[trigger] combine.requires((&a, &b)),
                    extent == run_extent(axes),
                    left_stride == run_stride(left_layout@.1),
                    right_stride == run_stride(right_layout@.1),
                    left_stride <= 1,
                    right_stride <= 1,
                    left_start == storage_address((outer(axes), outer(left_layout@.1), left_layout@.2), run as nat),
                    right_start == storage_address((outer(axes), outer(right_layout@.1), right_layout@.2), run as nat),
                    first == run * extent,
                    first + extent <= volume_of(axes),
                    j <= extent,
                    combined@.len() == first + j,
                    forall|q: int| 0 <= q < combined@.len() ==> combine.ensures((&lefts[q], &rights[q]), #[trigger] combined@[q]),
                decreases extent - j,
            {
                proof {
                    lemma_run_address_of(left_layout@, run as nat, j as nat);
                    lemma_run_address_of(right_layout@, run as nat, j as nat);
                    lemma_address_bound(axes, left_layout@.1, (first + j) as nat, 0);
                    lemma_address_bound(axes, right_layout@.1, (first + j) as nat, 0);
                    assert(j * left_stride == if left_stride == 0 { 0 } else { j as int }) by (nonlinear_arith)
                        requires left_stride <= 1;
                    assert(j * right_stride == if right_stride == 0 { 0 } else { j as int }) by (nonlinear_arith)
                        requires right_stride <= 1;
                }
                let left_index = if left_stride == 0 { left_start } else { left_start + j };
                let right_index = if right_stride == 0 { right_start } else { right_start + j };
                combined.push(combine(&left[left_index], &right[right_index]));
                j += 1;
            }
        }
        run += 1;
    }
    Some(combined)
}

impl<Element: Copy> Tensor<Element> {
    /// Creates the size-derived constant of `shape` holding `count` at
    /// every position, converted into the element type by `from_count`,
    /// stored as a non-allocating constant: the constructor behind a
    /// formula that divides by an axis extent. Counts convert exactly as
    /// long as the element type can represent them.
    pub fn counted<F: Fn(usize) -> Element>(shape: Shape, count: usize, from_count: F) -> (tensor: Tensor<Element>)
        requires
            fits(shape@),
            volume_of(shape@) > 0,
            from_count.requires((count,)),
        ensures
            tensor.shape_spec() == shape@,
            tensor.is_constant_spec(),
            exists|value: Element| #[trigger] from_count.ensures((count,), value) && tensor.elements() == Seq::new(
                volume_of(shape@),
                |position: int| value,
            ),
    {
        let value = from_count(count);
        Tensor::filled(shape, value)
    }

    /// Returns whether this tensor is what [`counted`](Self::counted)
    /// mints for `shape` and `count`: it has that shape, and `is_count`
    /// recognizes every element as `count`. The walk stops at the first
    /// element it does not recognize.
    pub fn is_counted<F: Fn(&Element, usize) -> bool>(&self, shape: &Shape, count: usize, is_count: F) -> (counted: bool)
        requires
            forall|element: Element| #[trigger] is_count.requires((&element, count)),
        ensures
            counted ==> self.shape_spec() == shape@ && forall|position: int|
                0 <= position < self.elements().len() ==> is_count.ensures((&#[trigger] self.elements()[position], count), true),
            !counted ==> self.shape_spec() != shape@ || exists|position: int|
                0 <= position < self.elements().len() && is_count.ensures((&#[trigger] self.elements()[position], count), false),
    {
        if !self.shape().same_as(shape) {
            return false;
        }
        let elements = self.to_vec();
        let mut position: usize = 0;
        while position < elements.len()
            invariant
                elements@ == self.elements(),
                position <= elements@.len(),
                forall|element: Element| #[trigger] is_count.requires((&element, count)),
                forall|earlier: int| 0 <= earlier < position ==> is_count.ensures((&#[trigger] elements@[earlier], count), true),
            decreases elements@.len() - position,
        {
            if !is_count(&elements[position], count) {
                return false;
            }
            position = position + 1;
        }
        true
    }

    /// Returns the elementwise maximum of this tensor and `other`, of the
    /// same shape, with `larger` the element type's maximum.
    pub fn maximum<F: Fn(&Element, &Element) -> Element>(&self, other: &Self, larger: F) -> (largest: Tensor<Element>)
        requires
            self.shape_spec() == other.shape_spec(),
            forall|a: Element, b: Element| #[trigger] larger.requires((&a, &b)),
        ensures
            largest.shape_spec() == self.shape_spec(),
            zipped_by(larger, self.elements(), other.elements(), largest.elements()),
    {
        self.zip(other, larger)
    }

    /// Returns the elementwise step of this tensor against `threshold`,
    /// of the same shape, with `indicator` the element type's 0/1
    /// indicator of `element >= threshold`, ties answering one.
    pub fn step<F: Fn(&Element, &Element) -> Element>(&self, threshold: &Self, indicator: F) -> (stepped: Tensor<Element>)
        requires
            self.shape_spec() == threshold.shape_spec(),
            forall|a: Element, b: Element| #[trigger] indicator.requires((&a, &b)),
        ensures
            stepped.shape_spec() == self.shape_spec(),
            zipped_by(indicator, self.elements(), threshold.elements(), stepped.elements()),
    {
        self.zip(threshold, indicator)
    }

    /// Combines two tensors element by element with `combine`.
    ///
    /// Two constants combine into a constant; contiguous dense buffers
    /// combine slice to slice; a dense-and-constant pair maps the dense
    /// operand against the single value; two dense buffers whose
    /// innermost strides are unit or zero combine run by run; everything
    /// else goes through the logical-order walks.
    pub fn zip<F: Fn(&Element, &Element) -> Element>(&self, other: &Self, combine: F) -> (zipped: Tensor<Element>)
        requires
            self.shape_spec() == other.shape_spec(),
            forall|a: Element, b: Element| #[trigger] combine.requires((&a, &b)),
        ensures
            zipped.shape_spec() == self.shape_spec(),
            zipped_by(combine, self.elements(), other.elements(), zipped.elements()),
    {
        proof {
            use_type_invariant(self);
            use_type_invariant(other);
            self.lemma_coherent();
            other.lemma_coherent();
        }
        if let (Storage::Constant { shape, value: left }, Storage::Constant { value: right, .. }) = (&self.storage, &other.storage) {
            let result = combine(left, right);
            return Tensor { storage: Storage::Constant { shape: shape.clone(), value: result } };
        }
        if let (Some(left), Some(right)) = (self.as_slice(), other.as_slice()) {
            let output = zip_slices(left, right, &combine);
            return Self::dense(self.shape(), output);
        }
        if let (Storage::Dense { .. }, Storage::Constant { value: right, .. }) = (&self.storage, &other.storage) {
            let held: Element = *right;
            let combining = &combine;
            let against = |left: &Element| -> (out: Element)
                requires
                    combining.requires((left, &held)),
                ensures
                    combining.ensures((left, &held), out),
                {
                    combining(left, &held)
                };
            let mapped = self.map(against);
            proof {
                assert forall|position: int| 0 <= position < self.elements().len() implies
                    combine.ensures((&self.elements()[position], &other.elements()[position]), #[trigger] mapped.elements()[position]) by {
                    assert(against.ensures((&self.elements()[position],), mapped.elements()[position]));
                }
            }
            return mapped;
        }
        if let (Storage::Constant { value: left, .. }, Storage::Dense { .. }) = (&self.storage, &other.storage) {
            let held: Element = *left;
            let combining = &combine;
            let against = |right: &Element| -> (out: Element)
                requires
                    combining.requires((&held, right)),
                ensures
                    combining.ensures((&held, right), out),
                {
                    combining(&held, right)
                };
            let mapped = other.map(against);
            proof {
                assert forall|position: int| 0 <= position < self.elements().len() implies
                    combine.ensures((&self.elements()[position], &other.elements()[position]), #[trigger] mapped.elements()[position]) by {
                    assert(against.ensures((&other.elements()[position],), mapped.elements()[position]));
                }
            }
            return mapped;
        }
        if let (Storage::Dense { data: left, layout: left_layout }, Storage::Dense { data: right, layout: right_layout }) = (&self.storage, &other.storage) {
            if let Some(combined) = zipped_runs(left.as_slice(), left_layout, right.as_slice(), right_layout, &combine) {
                return Self::dense(self.shape(), combined);
            }
        }
        let left = self.to_vec();
        let right = other.to_vec();
        let output = zip_slices(left.as_slice(), right.as_slice(), &combine);
        Self::dense(self.shape(), output)
    }
}

/// Combines two equally long slices pairwise with `combine`.
fn zip_slices<Element, F: Fn(&Element, &Element) -> Element>(left: &[Element], right: &[Element], combine: &F) -> (output: Vec<Element>)
    requires
        left@.len() == right@.len(),
        forall|a: Element, b: Element| #[trigger] combine.requires((&a, &b)),
    ensures
        zipped_by(*combine, left@, right@, output@),
{
    let mut output: Vec<Element> = Vec::new();
    let mut index: usize = 0;
    while index < left.len()
        invariant
            left@.len() == right@.len(),
            forall|a: Element, b: Element| #[trigger] combine.requires((&a, &b)),
            index <= left@.len(),
            output@.len() == index,
            forall|position: int| 0 <= position < index ==> combine.ensures((&left@[position], &right@[position]), #[trigger] output@[position]),
        decreases left@.len() - index,
    {
        output.push(combine(&left[index], &right[index]));
        index += 1;
    }
    output
}


/// The multi-index `index` moved `start` places along `axis`.
pub open spec fn shifted(index: Seq<nat>, axis: int, start: nat) -> Seq<nat> {
    index.update(axis, index[axis] + start)
}

/// The element at `row`, `column` of the row-major matrix `elements`
/// whose rows are `width` long.
pub open spec fn entry<Element>(elements: Seq<Element>, width: nat, row: int, column: int) -> Element {
    elements[row * width + column]
}

/// The shape a transposition answers: the two axes swapped at rank two,
/// the shape itself below.
pub open spec fn transposed_axes(axes: Seq<usize>) -> Seq<usize> {
    if axes.len() == 2 { seq![axes[1], axes[0]] } else { axes }
}

/// Returns the shape with its two axes swapped, matching the transpose
/// a constant undergoes without touching a buffer; ranks 0 and 1 are
/// unchanged.
fn transpose_shape(shape: &Shape) -> (swapped: Shape)
    requires
        shape@.len() <= 2,
    ensures
        swapped@ == transposed_axes(shape@),
{
    if shape.rank() < 2 {
        return shape.clone();
    }
    let axes = shape.axes();
    let swapped = Shape::new(vec![axes[1], axes[0]]);
    assert(swapped@ =~= transposed_axes(shape@));
    swapped
}

/// The suffix products of a pair of extents: the product, the second
/// extent, and one.
proof fn lemma_pair_products(axes: Seq<usize>)
    requires
        axes.len() == 2,
    ensures
        suffix_product(axes, 2) == 1,
        suffix_product(axes, 1) == axes[1] as nat,
        suffix_product(axes, 0) == axes[0] as nat * axes[1] as nat,
{
    assert(suffix_product(axes, 2) == 1);
    vstd::arithmetic::mul::lemma_mul_basics(axes[1] as int);
    assert(suffix_product(axes, 1) == axes[1] as nat);
}

/// A swapped pair of extents is as representable as the pair.
proof fn lemma_swapped_fits(axes: Seq<usize>)
    requires
        axes.len() == 2,
        fits(axes),
        all_positive(axes),
    ensures
        fits(transposed_axes(axes)),
        all_positive(transposed_axes(axes)),
        volume_of(transposed_axes(axes)) == volume_of(axes),
{
    let swapped = transposed_axes(axes);
    assert(swapped[0] == axes[1] && swapped[1] == axes[0]);
    lemma_pair_products(axes);
    lemma_pair_products(swapped);
    vstd::arithmetic::mul::lemma_mul_is_commutative(axes[0] as int, axes[1] as int);
    assert(axes[0] as nat <= axes[0] as nat * axes[1] as nat) by (nonlinear_arith)
        requires axes[1] > 0;
    assert(suffix_product(axes, 0) <= usize::MAX);
    assert forall|k: int| 0 <= k <= swapped.len() implies #[trigger] suffix_product(swapped, k) <= usize::MAX by {
        if k == 0 {
        } else if k == 1 {
        } else {
        }
    }
    assert forall|k: int| 0 <= k < swapped.len() implies #[trigger] swapped[k] > 0 by {
        assert(axes[0] > 0 && axes[1] > 0);
    }
}

impl<Element: Copy> Tensor<Element> {
    /// Returns an equivalent tensor that is not a selection: a
    /// contiguous dense buffer shares its storage, anything else
    /// materializes in logical order.
    fn densify(&self) -> (dense: Tensor<Element>)
        ensures
            dense.shape_spec() == self.shape_spec(),
            dense.elements() == self.elements(),
            !(dense.storage is Selection),
    {
        proof {
            use_type_invariant(self);
        }
        if let Storage::Dense { data, layout } = &self.storage {
            if layout.is_contiguous() {
                return Tensor { storage: Storage::Dense { data: Arc::clone(data), layout: layout.clone() } };
            }
        }
        Self::dense(self.shape(), self.to_vec())
    }

    /// Returns the tensor with its two axes swapped as a view over the
    /// same buffer; rank-0 and rank-1 tensors are returned unchanged.
    pub fn transpose(&self) -> (transposed: Tensor<Element>)
        requires
            self.shape_spec().len() <= 2,
        ensures
            transposed.shape_spec() == transposed_axes(self.shape_spec()),
            self.shape_spec().len() < 2 ==> transposed.elements() == self.elements(),
            self.shape_spec().len() == 2 ==> forall|row: int, column: int|
                0 <= row < self.shape_spec()[1] && 0 <= column < self.shape_spec()[0]
                    ==> #[trigger] entry(transposed.elements(), self.shape_spec()[0] as nat, row, column)
                        == entry(self.elements(), self.shape_spec()[1] as nat, column, row),
    {
        if let Storage::Selection { .. } = &self.storage {
            let dense = self.densify();
            return dense.transpose_stored();
        }
        self.transpose_stored()
    }

    /// Transposes a dense or constant tensor.
    #[verifier::spinoff_prover]
    fn transpose_stored(&self) -> (transposed: Tensor<Element>)
        requires
            self.shape_spec().len() <= 2,
            !(self.storage is Selection),
        ensures
            transposed.shape_spec() == transposed_axes(self.shape_spec()),
            self.shape_spec().len() < 2 ==> transposed.elements() == self.elements(),
            self.shape_spec().len() == 2 ==> forall|row: int, column: int|
                0 <= row < self.shape_spec()[1] && 0 <= column < self.shape_spec()[0]
                    ==> #[trigger] entry(transposed.elements(), self.shape_spec()[0] as nat, row, column)
                        == entry(self.elements(), self.shape_spec()[1] as nat, column, row),
    {
        proof {
            use_type_invariant(self);
            self.lemma_coherent();
        }
        match &self.storage {
            Storage::Dense { data, layout } => {
                let swapped = layout.transpose();
                proof {
                    let axes = layout@.0;
                    let strides = layout@.1;
                    if axes.len() == 2 {
                        lemma_swapped_fits(axes);
                        assert(swapped@.0 == transposed_axes(axes));
                        assert(reach_from(swapped@.0, swapped@.1, 2) == 0);
                        assert(reach_from(axes, strides, 2) == 0);
                        assert(reach_from(swapped@.0, swapped@.1, 1) == (axes[0] - 1) * strides[0]);
                        assert(reach_from(axes, strides, 1) == (axes[1] - 1) * strides[1]);
                        assert(reach_from(swapped@.0, swapped@.1, 0) == reach_from(axes, strides, 0));
                    }
                }
                let transposed = Tensor { storage: Storage::Dense { data: Arc::clone(data), layout: swapped } };
                proof {
                    let axes = layout@.0;
                    let strides = layout@.1;
                    if axes.len() == 2 {
                        let m = axes[0] as nat;
                        let n = axes[1] as nat;
                        assert forall|row: int, column: int| 0 <= row < n && 0 <= column < m implies
                            #[trigger] entry(transposed.elements(), m, row, column) == entry(self.elements(), n, column, row) by {
                            let forward = seq![row as nat, column as nat];
                            let backward = seq![column as nat, row as nat];
                            assert(within(swapped@.0, forward));
                            assert(within(axes, backward));
                            lemma_address_of_flatten(swapped@.0, swapped@.1, forward);
                            lemma_address_of_flatten(axes, strides, backward);
                            lemma_pair_products(swapped@.0);
                            lemma_pair_products(axes);
                            assert(crate::layout::flatten_from(swapped@.0, forward, 2) == 0);
                            assert(crate::layout::flatten_from(axes, backward, 2) == 0);
                            vstd::arithmetic::mul::lemma_mul_basics(column as int);
                            vstd::arithmetic::mul::lemma_mul_basics(row as int);
                            assert(crate::layout::flatten_from(swapped@.0, forward, 1) == column);
                            assert(crate::layout::flatten_from(axes, backward, 1) == row);
                            assert(flatten(swapped@.0, forward) == row * m + column);
                            assert(flatten(axes, backward) == column * n + row);
                            assert(swapped@.1 == seq![strides[1], strides[0]]);
                            assert(dot_from(forward, swapped@.1, 2) == 0);
                            assert(dot_from(backward, strides, 2) == 0);
                            assert(dot_from(forward, swapped@.1, 1) == column * (strides[0] as nat));
                            assert(dot_from(backward, strides, 1) == row * (strides[1] as nat));
                            assert(dot_from(forward, swapped@.1, 0) == dot_from(backward, strides, 0));
                        }
                    } else {
                        assert(transposed.elements() =~= self.elements());
                    }
                }
                transposed
            },
            Storage::Constant { shape, value } => {
                let swapped = transpose_shape(shape);
                proof {
                    if shape@.len() == 2 {
                        lemma_swapped_fits(shape@);
                    }
                }
                let transposed = Tensor { storage: Storage::Constant { shape: swapped, value: *value } };
                proof {
                    if shape@.len() < 2 {
                        assert(transposed.elements() =~= self.elements());
                    } else {
                        let m = shape@[0] as nat;
                        let n = shape@[1] as nat;
                        assert forall|row: int, column: int| 0 <= row < n && 0 <= column < m implies
                            #[trigger] entry(transposed.elements(), m, row, column) == entry(self.elements(), n, column, row) by {
                            assert(row * m + column < n * m) by (nonlinear_arith)
                                requires 0 <= row < n, 0 <= column < m;
                            assert(column * n + row < m * n) by (nonlinear_arith)
                                requires 0 <= row < n, 0 <= column < m;
                            lemma_pair_products(shape@);
                            lemma_pair_products(swapped@);
                            vstd::arithmetic::mul::lemma_mul_is_commutative(m as int, n as int);
                        }
                    }
                }
                transposed
            },
            Storage::Selection { .. } => {
                assert(false);
                self.densify()
            },
        }
    }
}


impl<Element: Copy> Tensor<Element> {
    /// Returns this tensor's single element spread across `shape` as a
    /// constant: the whole-shape form of explicit broadcasting.
    pub fn broadcast(&self, shape: Shape) -> (spread: Tensor<Element>)
        requires
            volume_of(self.shape_spec()) == 1,
            fits(shape@),
            volume_of(shape@) > 0,
        ensures
            spread.shape_spec() == shape@,
            spread.elements() == Seq::new(volume_of(shape@), |position: int| self.elements()[0]),
    {
        proof {
            use_type_invariant(self);
            self.lemma_coherent();
        }
        let element = *self.get(0);
        Self::filled(shape, element)
    }

    /// Returns this tensor's single element spread across `reference`'s
    /// shape, reading the reference for its shape alone.
    pub fn broadcast_like(&self, reference: &Self) -> (spread: Tensor<Element>)
        requires
            volume_of(self.shape_spec()) == 1,
        ensures
            spread.shape_spec() == reference.shape_spec(),
            spread.elements() == Seq::new(volume_of(reference.shape_spec()), |position: int| self.elements()[0]),
    {
        self.broadcast(reference.shape())
    }

    /// Returns the tensor repeated along a new axis of `extent` inserted at
    /// `axis`, as a stride-0 view: the named-axis form of explicit
    /// broadcasting. Every element reads the element at its multi-index
    /// with that axis dropped.
    pub fn broadcast_along(&self, axis: usize, extent: usize) -> (spread: Tensor<Element>)
        requires
            axis <= self.shape_spec().len(),
            extent > 0,
            fits(self.shape_spec().insert(axis as int, extent)),
        ensures
            spread.shape_spec() == self.shape_spec().insert(axis as int, extent),
            spread.elements().len() == volume_of(spread.shape_spec()),
            forall|position: int| 0 <= position < spread.elements().len() ==> #[trigger] spread.elements()[position]
                == self.elements()[flatten(self.shape_spec(), coordinates(spread.shape_spec(), position as nat).remove(axis as int)) as int],
    {
        if let Storage::Selection { .. } = &self.storage {
            let dense = self.densify();
            return dense.broadcast_along_stored(axis, extent);
        }
        self.broadcast_along_stored(axis, extent)
    }

    /// Repeats a dense or constant tensor along a new axis.
    fn broadcast_along_stored(&self, axis: usize, extent: usize) -> (spread: Tensor<Element>)
        requires
            axis <= self.shape_spec().len(),
            extent > 0,
            fits(self.shape_spec().insert(axis as int, extent)),
            !(self.storage is Selection),
        ensures
            spread.shape_spec() == self.shape_spec().insert(axis as int, extent),
            spread.elements().len() == volume_of(spread.shape_spec()),
            forall|position: int| 0 <= position < spread.elements().len() ==> #[trigger] spread.elements()[position]
                == self.elements()[flatten(self.shape_spec(), coordinates(spread.shape_spec(), position as nat).remove(axis as int)) as int],
    {
        proof {
            use_type_invariant(self);
            self.lemma_coherent();
        }
        let shape = self.shape();
        let mut axes = vstd::slice::slice_to_vec(shape.axes());
        axes.insert(axis, extent);
        let widened = Shape::new(axes);
        let ghost source = shape@;
        let ghost target = widened@;
        proof {
            assert(target.remove(axis as int) =~= source);
            assert forall|k: int| 0 <= k < target.len() implies #[trigger] target[k] > 0 by {
                if k < axis {
                    assert(target[k] == source[k]);
                } else if k > axis {
                    assert(target[k] == source[k - 1]);
                }
            }
        }
        match &self.storage {
            Storage::Dense { data, layout } => {
                let view = layout.broadcast_along(axis, &widened);
                proof {
                    lemma_reach_insert_zero(layout@.0, layout@.1, axis as int, extent, 0);
                }
                let spread = Tensor { storage: Storage::Dense { data: Arc::clone(data), layout: view } };
                proof {
                    assert forall|position: int| 0 <= position < spread.elements().len() implies #[trigger] spread.elements()[position]
                        == self.elements()[flatten(source, coordinates(target, position as nat).remove(axis as int)) as int] by {
                        let index = coordinates(target, position as nat);
                        lemma_coordinates_within(target, position as nat);
                        let dropped = index.remove(axis as int);
                        assert(within(source, dropped)) by {
                            assert forall|k: int| 0 <= k < source.len() implies #[trigger] dropped[k] < source[k] by {
                                if k < axis {
                                    assert(dropped[k] == index[k] && target[k] == source[k]);
                                } else {
                                    assert(dropped[k] == index[k + 1] && target[k + 1] == source[k]);
                                }
                            }
                        }
                        lemma_address_of_flatten(source, layout@.1, dropped);
                        lemma_address_is_dot(target, view@.1, position as nat, 0);
                        lemma_dot_insert_zero(index, layout@.1, axis as int, 0);
                    }
                }
                spread
            },
            Storage::Constant { value, .. } => {
                proof {
                    crate::shape::lemma_suffix_product_positive(target, 0);
                }
                let spread = Tensor { storage: Storage::Constant { shape: widened, value: *value } };
                proof {
                    assert forall|position: int| 0 <= position < spread.elements().len() implies #[trigger] spread.elements()[position]
                        == self.elements()[flatten(source, coordinates(target, position as nat).remove(axis as int)) as int] by {
                        let index = coordinates(target, position as nat);
                        lemma_coordinates_within(target, position as nat);
                        let dropped = index.remove(axis as int);
                        assert(within(source, dropped)) by {
                            assert forall|k: int| 0 <= k < source.len() implies #[trigger] dropped[k] < source[k] by {
                                if k < axis {
                                    assert(dropped[k] == index[k] && target[k] == source[k]);
                                } else {
                                    assert(dropped[k] == index[k + 1] && target[k + 1] == source[k]);
                                }
                            }
                        }
                        crate::layout::lemma_coordinates_of_flatten(source, dropped);
                    }
                }
                spread
            },
            Storage::Selection { .. } => {
                assert(false);
                self.densify()
            },
        }
    }

    /// Returns the tensor repeated along `axis` to match `reference`'s
    /// shape, reading the reference for its shape alone.
    pub fn broadcast_along_like(&self, axis: usize, reference: &Self) -> (spread: Tensor<Element>)
        requires
            axis < reference.shape_spec().len(),
            self.shape_spec() == reference.shape_spec().remove(axis as int),
        ensures
            spread.shape_spec() == reference.shape_spec(),
            spread.elements().len() == volume_of(spread.shape_spec()),
            forall|position: int| 0 <= position < spread.elements().len() ==> #[trigger] spread.elements()[position]
                == self.elements()[flatten(self.shape_spec(), coordinates(spread.shape_spec(), position as nat).remove(axis as int)) as int],
    {
        let reference_shape = reference.shape();
        let extent = reference_shape.extent(axis);
        proof {
            assert(reference_shape@.remove(axis as int).insert(axis as int, extent) =~= reference_shape@);
        }
        self.broadcast_along(axis, extent)
    }

    /// Returns the window of `len` elements from `start` along `axis` as a
    /// view over the same buffer. Every element reads the element at its
    /// multi-index shifted by `start` along `axis`.
    pub fn narrow(&self, axis: usize, start: usize, len: usize) -> (window: Tensor<Element>)
        requires
            axis < self.shape_spec().len(),
            len > 0,
            start + len <= self.shape_spec()[axis as int],
        ensures
            window.shape_spec() == self.shape_spec().update(axis as int, len),
            window.elements().len() == volume_of(window.shape_spec()),
            forall|position: int| 0 <= position < window.elements().len() ==> #[trigger] window.elements()[position]
                == self.elements()[flatten(
                    self.shape_spec(),
                    shifted(coordinates(window.shape_spec(), position as nat), axis as int, start as nat),
                ) as int],
    {
        if let Storage::Selection { .. } = &self.storage {
            let dense = self.densify();
            return dense.narrow_stored(axis, start, len);
        }
        self.narrow_stored(axis, start, len)
    }

    /// Narrows a dense or constant tensor.
    fn narrow_stored(&self, axis: usize, start: usize, len: usize) -> (window: Tensor<Element>)
        requires
            axis < self.shape_spec().len(),
            len > 0,
            start + len <= self.shape_spec()[axis as int],
            !(self.storage is Selection),
        ensures
            window.shape_spec() == self.shape_spec().update(axis as int, len),
            window.elements().len() == volume_of(window.shape_spec()),
            forall|position: int| 0 <= position < window.elements().len() ==> #[trigger] window.elements()[position]
                == self.elements()[flatten(
                    self.shape_spec(),
                    shifted(coordinates(window.shape_spec(), position as nat), axis as int, start as nat),
                ) as int],
    {
        proof {
            use_type_invariant(self);
            self.lemma_coherent();
        }
        let shape = self.shape();
        let mut axes = vstd::slice::slice_to_vec(shape.axes());
        axes.set(axis, len);
        let narrowed = Shape::new(axes);
        let ghost source = shape@;
        let ghost target = narrowed@;
        proof {
            assert(target =~= source.update(axis as int, len));
            assert forall|k: int| 0 <= k < target.len() implies #[trigger] target[k] > 0 by {
                if k != axis {
                    assert(target[k] == source[k]);
                }
            }
            assert forall|k: int| 0 <= k <= target.len() implies #[trigger] suffix_product(target, k) <= usize::MAX by {
                lemma_suffix_narrowed(source, axis as int, len, k);
            }
        }
        match &self.storage {
            Storage::Dense { data, layout } => {
                let ghost extent = source[axis as int];
                let ghost stride = layout@.1[axis as int];
                proof {
                    lemma_reach_covers_axis(layout@.0, layout@.1, axis as int, 0);
                    lemma_reach_narrowed(layout@.0, layout@.1, axis as int, len, 0);
                    assert(start * stride <= (extent - len) * stride) by (nonlinear_arith)
                        requires start <= extent - len, stride >= 0;
                    assert((extent - len) * stride <= (extent - 1) * stride) by (nonlinear_arith)
                        requires len >= 1, stride >= 0;
                }
                let view = layout.narrow(axis, start, len);
                let window = Tensor { storage: Storage::Dense { data: Arc::clone(data), layout: view } };
                proof {
                    assert forall|position: int| 0 <= position < window.elements().len() implies #[trigger] window.elements()[position]
                        == self.elements()[flatten(
                            source,
                            shifted(coordinates(target, position as nat), axis as int, start as nat),
                        ) as int] by {
                        let index = coordinates(target, position as nat);
                        lemma_coordinates_within(target, position as nat);
                        let moved = shifted(index, axis as int, start as nat);
                        assert(within(source, moved)) by {
                            assert forall|k: int| 0 <= k < source.len() implies #[trigger] moved[k] < source[k] by {
                                if k != axis {
                                    assert(target[k] == source[k]);
                                }
                            }
                        }
                        lemma_address_of_flatten(source, layout@.1, moved);
                        lemma_address_is_dot(target, view@.1, position as nat, 0);
                        lemma_dot_shift(index, layout@.1, axis as int, start as nat, 0);
                    }
                }
                window
            },
            Storage::Constant { value, .. } => {
                proof {
                    crate::shape::lemma_suffix_product_positive(target, 0);
                }
                let window = Tensor { storage: Storage::Constant { shape: narrowed, value: *value } };
                proof {
                    assert forall|position: int| 0 <= position < window.elements().len() implies #[trigger] window.elements()[position]
                        == self.elements()[flatten(
                            source,
                            shifted(coordinates(target, position as nat), axis as int, start as nat),
                        ) as int] by {
                        let index = coordinates(target, position as nat);
                        lemma_coordinates_within(target, position as nat);
                        let moved = shifted(index, axis as int, start as nat);
                        assert(within(source, moved)) by {
                            assert forall|k: int| 0 <= k < source.len() implies #[trigger] moved[k] < source[k] by {
                                if k != axis {
                                    assert(target[k] == source[k]);
                                }
                            }
                        }
                        crate::layout::lemma_coordinates_of_flatten(source, moved);
                    }
                }
                window
            },
            Storage::Selection { .. } => {
                assert(false);
                self.densify()
            },
        }
    }
}


/// The multi-index of the operand that the multi-index `index` of a view
/// permuted by `order` reads: axis `order[i]` takes coordinate `index[i]`.
pub open spec fn restored(index: Seq<nat>, order: Seq<usize>) -> Seq<nat> {
    Seq::new(order.len(), |a: int| index[choose|i: int| 0 <= i < order.len() && order[i] == a])
}

/// Restoring a permuted multi-index puts every coordinate back on the
/// axis it came from, within the operand's extents.
proof fn lemma_restored(axes: Seq<usize>, moved: Seq<nat>, order: Seq<usize>)
    requires
        is_permutation(order, axes.len()),
        within(permuted(axes, order), moved),
    ensures
        restored(moved, order).len() == axes.len(),
        forall|i: int| 0 <= i < order.len() ==> #[trigger] moved[i] == restored(moved, order)[order[i] as int],
        within(axes, restored(moved, order)),
{
    let index = restored(moved, order);
    assert forall|i: int| 0 <= i < order.len() implies #[trigger] moved[i] == index[order[i] as int] by {
        let a = order[i] as int;
        assert(0 <= i < order.len() && order[i] == a);
        let j = choose|j: int| 0 <= j < order.len() && order[j] == a;
        if j != i {
            if j < i {
                assert(order[j] != order[i]);
            } else {
                assert(order[i] != order[j]);
            }
        }
    }
    lemma_permutation_is_onto(order);
    assert forall|a: int| 0 <= a < axes.len() implies #[trigger] index[a] < axes[a] by {
        assert(appears(order, a));
        let i = choose|i: int| 0 <= i < order.len() && order[i] == a;
        assert(moved[i] < permuted(axes, order)[i]);
    }
}

/// Permuting a tensor by `order` and the result by its inverse gives the
/// tensor back: if `middle` holds the elements of the `axes`-shaped
/// `first` permuted by `order`, and `last` those of `middle` permuted by
/// `inverse`, then `last` is `first`.
pub proof fn law_permute_then_inverse_restores<Element>(
    axes: Seq<usize>,
    order: Seq<usize>,
    inverse: Seq<usize>,
    first: Seq<Element>,
    middle: Seq<Element>,
    last: Seq<Element>,
)
    requires
        all_positive(axes),
        is_permutation(order, axes.len()),
        inverse.len() == order.len(),
        forall|i: int| 0 <= i < order.len() ==> #[trigger] inverse[order[i] as int] == i,
        first.len() == volume_of(axes),
        last.len() == volume_of(axes),
        forall|position: int| 0 <= position < volume_of(permuted(axes, order)) ==> #[trigger] middle[position]
            == first[flatten(axes, restored(coordinates(permuted(axes, order), position as nat), order)) as int],
        forall|position: int| 0 <= position < last.len() ==> #[trigger] last[position]
            == middle[flatten(permuted(axes, order), restored(coordinates(axes, position as nat), inverse)) as int],
    ensures
        last == first,
{
    let moved = permuted(axes, order);
    crate::op::permute::law_inverse_undoes_the_order(order, inverse);
    crate::op::permute::law_inverse_restores_the_axes(axes, order, inverse);
    assert(permuted(moved, inverse) == axes);
    lemma_permuted_fits_positive(axes, order);
    assert forall|position: int| 0 <= position < first.len() implies #[trigger] last[position] == first[position] by {
        let index = coordinates(axes, position as nat);
        lemma_coordinates_within(axes, position as nat);
        lemma_restored(moved, index, inverse);
        let back = restored(index, inverse);
        crate::layout::lemma_coordinates_of_flatten(moved, back);
        let q = flatten(moved, back);
        assert(coordinates(moved, q) == back);
        lemma_restored(axes, back, order);
        let again = restored(back, order);
        lemma_permutation_is_onto(order);
        assert forall|a: int| 0 <= a < axes.len() implies #[trigger] again[a] == index[a] by {
            assert(appears(order, a));
            let i = choose|i: int| 0 <= i < order.len() && order[i] == a;
            assert(again[a] == back[i]);
            assert(back[i] == back[inverse[order[i] as int] as int]);
            assert(index[order[i] as int] == back[inverse[order[i] as int] as int]);
        }
        assert(again =~= index);
        crate::layout::lemma_flatten_of_coordinates(axes, position as nat);
    }
    assert(last =~= first);
}

/// Reordering positive extents keeps them positive.
proof fn lemma_permuted_fits_positive(axes: Seq<usize>, order: Seq<usize>)
    requires
        all_positive(axes),
        is_permutation(order, axes.len()),
    ensures
        all_positive(permuted(axes, order)),
{
    assert forall|k: int| 0 <= k < order.len() implies #[trigger] permuted(axes, order)[k] > 0 by {
        assert(axes[order[k] as int] > 0);
    }
}

/// Returns the extents of `shape` reordered by `order`.
fn permute_shape(shape: &Shape, order: &[usize]) -> (reordered: Shape)
    requires
        is_permutation(order@, shape@.len()),
    ensures
        reordered@ == permuted(shape@, order@),
{
    let axes = shape.axes();
    let mut extents: Vec<usize> = Vec::new();
    let mut position: usize = 0;
    while position < order.len()
        invariant
            axes@ == shape@,
            is_permutation(order@, shape@.len()),
            position <= order@.len(),
            extents@ == permuted(shape@, order@).subrange(0, position as int),
        decreases order@.len() - position,
    {
        extents.push(axes[order[position]]);
        position = position + 1;
        assert(extents@ =~= permuted(shape@, order@).subrange(0, position as int));
    }
    assert(extents@ =~= permuted(shape@, order@));
    Shape::new(extents)
}

impl<Element: Copy> Tensor<Element> {
    /// Returns the tensor with its axes reordered by `order` as a view over
    /// the same buffer: axis `i` of the result is axis `order[i]` of
    /// `self`, and every element reads the element at its multi-index put
    /// back in the operand's axis order.
    pub fn permute(&self, order: &[usize]) -> (reordered: Tensor<Element>)
        requires
            is_permutation(order@, self.shape_spec().len()),
        ensures
            reordered.shape_spec() == permuted(self.shape_spec(), order@),
            reordered.elements().len() == volume_of(reordered.shape_spec()),
            forall|position: int| 0 <= position < reordered.elements().len() ==> #[trigger] reordered.elements()[position]
                == self.elements()[flatten(self.shape_spec(), restored(coordinates(reordered.shape_spec(), position as nat), order@)) as int],
    {
        if let Storage::Selection { .. } = &self.storage {
            let dense = self.densify();
            return dense.permute_stored(order);
        }
        self.permute_stored(order)
    }

    /// Permutes a dense or constant tensor.
    fn permute_stored(&self, order: &[usize]) -> (reordered: Tensor<Element>)
        requires
            is_permutation(order@, self.shape_spec().len()),
            !(self.storage is Selection),
        ensures
            reordered.shape_spec() == permuted(self.shape_spec(), order@),
            reordered.elements().len() == volume_of(reordered.shape_spec()),
            forall|position: int| 0 <= position < reordered.elements().len() ==> #[trigger] reordered.elements()[position]
                == self.elements()[flatten(self.shape_spec(), restored(coordinates(reordered.shape_spec(), position as nat), order@)) as int],
    {
        proof {
            use_type_invariant(self);
            self.lemma_coherent();
            lemma_permuted_fits(self.shape_spec(), order@);
        }
        let ghost source = self.shape_spec();
        let ghost target = permuted(source, order@);
        match &self.storage {
            Storage::Dense { data, layout } => {
                let view = layout.permute(order);
                proof {
                    assert(view@.0 =~= target);
                    assert(view@.1 =~= permuted(layout@.1, order@));
                    lemma_permuted_reach(layout@.0, layout@.1, order@);
                }
                let reordered = Tensor { storage: Storage::Dense { data: Arc::clone(data), layout: view } };
                proof {
                    assert forall|position: int| 0 <= position < reordered.elements().len() implies #[trigger] reordered.elements()[position]
                        == self.elements()[flatten(source, restored(coordinates(target, position as nat), order@)) as int] by {
                        let moved = coordinates(target, position as nat);
                        lemma_coordinates_within(target, position as nat);
                        lemma_restored(source, moved, order@);
                        let index = restored(moved, order@);
                        lemma_address_of_flatten(source, layout@.1, index);
                        lemma_address_is_dot(target, view@.1, position as nat, 0);
                        lemma_permuted_dot(moved, index, layout@.1, order@);
                    }
                }
                reordered
            },
            Storage::Constant { shape, value } => {
                let reordered = Tensor { storage: Storage::Constant { shape: permute_shape(shape, order), value: *value } };
                proof {
                    assert forall|position: int| 0 <= position < reordered.elements().len() implies #[trigger] reordered.elements()[position]
                        == self.elements()[flatten(source, restored(coordinates(target, position as nat), order@)) as int] by {
                        let moved = coordinates(target, position as nat);
                        lemma_coordinates_within(target, position as nat);
                        lemma_restored(source, moved, order@);
                        crate::layout::lemma_coordinates_of_flatten(source, restored(moved, order@));
                    }
                }
                reordered
            },
            Storage::Selection { .. } => {
                assert(false);
                self.densify()
            },
        }
    }
}


/// The shape of the sliding windows along `axis`: the axis becomes the
/// `(count, size)` pair of window count and window size.
pub open spec fn windowed_axes(axes: Seq<usize>, axis: int, size: usize, step: usize, dilation: usize) -> Seq<usize> {
    axes.update(axis, window_count(axes[axis] as int, size as int, step as int, dilation as int) as usize).insert(axis + 1, size)
}

/// The multi-index of the operand that the multi-index `index` of the
/// windows along `axis` reads: window `index[axis]` at element
/// `index[axis + 1]` reads coordinate `index[axis] * step + index[axis + 1] * dilation`.
pub open spec fn unwindowed(index: Seq<nat>, axis: int, step: nat, dilation: nat) -> Seq<nat> {
    index.remove(axis + 1).update(axis, index[axis] * step + index[axis + 1] * dilation)
}

/// The windows along an axis number at least one, and the last window
/// ends within the axis.
proof fn lemma_window_count(extent: int, size: int, step: int, dilation: int)
    requires
        size > 0,
        step > 0,
        dilation > 0,
        dilation * (size - 1) + 1 <= extent,
    ensures
        window_count(extent, size, step, dilation) >= 1,
        window_count(extent, size, step, dilation) <= extent,
        (window_count(extent, size, step, dilation) - 1) * step + dilation * (size - 1) <= extent - 1,
        window_count(extent, size, step, dilation) != 1 ==> step <= extent - 1,
        size != 1 ==> dilation <= extent - 1,
{
    let rest = extent - dilation * (size - 1) - 1;
    vstd::arithmetic::div_mod::lemma_fundamental_div_mod(rest, step);
    vstd::arithmetic::div_mod::lemma_mod_bound(rest, step);
    vstd::arithmetic::div_mod::lemma_div_pos_is_pos(rest, step);
    let count = rest / step;
    assert(count * step <= rest) by (nonlinear_arith)
        requires rest == step * count + rest % step, 0 <= rest % step;
    if count != 0 {
        assert(step <= count * step) by (nonlinear_arith)
            requires count >= 1, step > 0;
    }
    assert(count <= count * step) by (nonlinear_arith)
        requires count >= 0, step > 0;
    assert(dilation * (size - 1) >= 0) by (nonlinear_arith)
        requires dilation > 0, size > 0;
    if size != 1 {
        assert(dilation <= dilation * (size - 1)) by (nonlinear_arith)
            requires size >= 2, dilation > 0;
    }
}

/// Returns the extents of `shape` with `axis` split into the window
/// pair `(count, size)`.
fn window_shape(shape: &Shape, axis: usize, count: usize, size: usize) -> (windowed: Shape)
    requires
        axis < shape@.len(),
    ensures
        windowed@ == shape@.update(axis as int, count).insert(axis + 1, size),
{
    let mut axes = vstd::slice::slice_to_vec(shape.axes());
    let rank = axes.len();
    assert(axis < rank);
    axes.set(axis, count);
    axes.insert(axis + 1, size);
    Shape::new(axes)
}

impl<Element: Copy> Tensor<Element> {
    /// Returns the sliding windows of `self` along `axis` as a strided view
    /// over the same buffer: the axis becomes a `(count, size)` pair where
    /// window `w` starts at `w * step` and takes every `dilation`-th
    /// element. Overlapping windows alias elements read-only.
    pub fn unfold(&self, axis: usize, size: usize, step: usize, dilation: usize) -> (windows: Tensor<Element>)
        requires
            axis < self.shape_spec().len(),
            size > 0,
            step > 0,
            dilation > 0,
            dilation * (size - 1) + 1 <= self.shape_spec()[axis as int],
            fits(windowed_axes(self.shape_spec(), axis as int, size, step, dilation)),
        ensures
            windows.shape_spec() == windowed_axes(self.shape_spec(), axis as int, size, step, dilation),
            windows.elements().len() == volume_of(windows.shape_spec()),
            forall|position: int| 0 <= position < windows.elements().len() ==> #[trigger] windows.elements()[position]
                == self.elements()[flatten(
                    self.shape_spec(),
                    unwindowed(coordinates(windows.shape_spec(), position as nat), axis as int, step as nat, dilation as nat),
                ) as int],
    {
        if let Storage::Selection { .. } = &self.storage {
            let dense = self.densify();
            return dense.unfold_stored(axis, size, step, dilation);
        }
        self.unfold_stored(axis, size, step, dilation)
    }

    /// Unfolds a dense or constant tensor.
    #[verifier::spinoff_prover]
    fn unfold_stored(&self, axis: usize, size: usize, step: usize, dilation: usize) -> (windows: Tensor<Element>)
        requires
            axis < self.shape_spec().len(),
            size > 0,
            step > 0,
            dilation > 0,
            dilation * (size - 1) + 1 <= self.shape_spec()[axis as int],
            fits(windowed_axes(self.shape_spec(), axis as int, size, step, dilation)),
            !(self.storage is Selection),
        ensures
            windows.shape_spec() == windowed_axes(self.shape_spec(), axis as int, size, step, dilation),
            windows.elements().len() == volume_of(windows.shape_spec()),
            forall|position: int| 0 <= position < windows.elements().len() ==> #[trigger] windows.elements()[position]
                == self.elements()[flatten(
                    self.shape_spec(),
                    unwindowed(coordinates(windows.shape_spec(), position as nat), axis as int, step as nat, dilation as nat),
                ) as int],
    {
        proof {
            use_type_invariant(self);
            self.lemma_coherent();
        }
        let ghost source = self.shape_spec();
        let ghost extent = source[axis as int] as int;
        let ghost count = window_count(extent, size as int, step as int, dilation as int);
        let ghost target = windowed_axes(source, axis as int, size, step, dilation);
        proof {
            lemma_window_count(extent, size as int, step as int, dilation as int);
            assert forall|k: int| 0 <= k < target.len() implies #[trigger] target[k] > 0 by {
                if k < axis {
                    assert(target[k] == source[k]);
                } else if k > axis + 1 {
                    assert(target[k] == source[k - 1]);
                }
            }
        }
        match &self.storage {
            Storage::Dense { data, layout } => {
                let ghost along = layout@.1[axis as int] as int;
                proof {
                    lemma_reach_covers_axis(layout@.0, layout@.1, axis as int, 0);
                    if count != 1 {
                        assert(step * along <= (extent - 1) * along) by (nonlinear_arith)
                            requires step <= extent - 1, along >= 0;
                    }
                    if size != 1 {
                        assert(dilation * along <= (extent - 1) * along) by (nonlinear_arith)
                            requires dilation <= extent - 1, along >= 0;
                    }
                }
                let view = layout.unfold(axis, size, step, dilation);
                let ghost outer = view@.1[axis as int];
                let ghost inner = view@.1[axis + 1];
                proof {
                    assert(view@.0 == target);
                    assert(view@.1 == layout@.1.update(axis as int, outer).insert(axis + 1, inner));
                    lemma_reach_windowed(layout@.0, layout@.1, axis as int, count as usize, size, outer, inner, 0);
                    assert((count - 1) * outer <= (count - 1) * step * along) by (nonlinear_arith)
                        requires count >= 1, count != 1 ==> outer == step * along;
                    assert((size - 1) * inner <= (size - 1) * dilation * along) by (nonlinear_arith)
                        requires size >= 1, size != 1 ==> inner == dilation * along;
                    assert((count - 1) * step * along + (size - 1) * dilation * along <= (extent - 1) * along) by (nonlinear_arith)
                        requires (count - 1) * step + dilation * (size - 1) <= extent - 1, along >= 0;
                }
                let windows = Tensor { storage: Storage::Dense { data: Arc::clone(data), layout: view } };
                proof {
                    assert forall|position: int| 0 <= position < windows.elements().len() implies #[trigger] windows.elements()[position]
                        == self.elements()[flatten(
                            source,
                            unwindowed(coordinates(target, position as nat), axis as int, step as nat, dilation as nat),
                        ) as int] by {
                        let index = coordinates(target, position as nat);
                        lemma_coordinates_within(target, position as nat);
                        let read = unwindowed(index, axis as int, step as nat, dilation as nat);
                        self.lemma_unwindowed_within(index, axis as int, size, step, dilation);
                        assert(index[axis as int] * (outer as nat) == index[axis as int] * (step * (along as nat))) by {
                            if count == 1 {
                                assert(index[axis as int] == 0);
                            }
                        }
                        assert(index[axis + 1] * (inner as nat) == index[axis + 1] * (dilation * (along as nat))) by {
                            if size == 1 {
                                assert(index[axis + 1] == 0);
                            }
                        }
                        lemma_address_of_flatten(source, layout@.1, read);
                        lemma_address_is_dot(target, view@.1, position as nat, 0);
                        lemma_dot_windowed(index, layout@.1, axis as int, step as nat, dilation as nat, outer, inner, 0);
                    }
                }
                windows
            },
            Storage::Constant { shape, value } => {
                proof {
                    assert(dilation * (size - 1) <= extent - 1) by (nonlinear_arith)
                        requires dilation * (size - 1) + 1 <= extent;
                    assert(dilation * (size - 1) >= 0) by (nonlinear_arith)
                        requires dilation > 0, size > 0;
                    crate::shape::lemma_suffix_product_positive(target, 0);
                }
                let reach = dilation * (size - 1);
                let windows_along = (shape.extent(axis) - reach - 1) / step + 1;
                assert(windows_along == count);
                let windowed = window_shape(shape, axis, windows_along, size);
                assert(windowed@ == target);
                let windows = Tensor { storage: Storage::Constant { shape: windowed, value: *value } };
                proof {
                    crate::shape::lemma_suffix_product_positive(target, 0);
                    assert forall|position: int| 0 <= position < windows.elements().len() implies #[trigger] windows.elements()[position]
                        == self.elements()[flatten(
                            source,
                            unwindowed(coordinates(target, position as nat), axis as int, step as nat, dilation as nat),
                        ) as int] by {
                        let index = coordinates(target, position as nat);
                        lemma_coordinates_within(target, position as nat);
                        self.lemma_unwindowed_within(index, axis as int, size, step, dilation);
                        crate::layout::lemma_coordinates_of_flatten(
                            source,
                            unwindowed(index, axis as int, step as nat, dilation as nat),
                        );
                    }
                }
                windows
            },
            Storage::Selection { .. } => {
                assert(false);
                self.densify()
            },
        }
    }

    /// A multi-index of the windows reads a multi-index of the operand.
    proof fn lemma_unwindowed_within(&self, index: Seq<nat>, axis: int, size: usize, step: usize, dilation: usize)
        requires
            0 <= axis < self.shape_spec().len(),
            size > 0,
            step > 0,
            dilation > 0,
            dilation * (size - 1) + 1 <= self.shape_spec()[axis],
            within(windowed_axes(self.shape_spec(), axis, size, step, dilation), index),
        ensures
            within(self.shape_spec(), unwindowed(index, axis, step as nat, dilation as nat)),
    {
        let source = self.shape_spec();
        let target = windowed_axes(source, axis, size, step, dilation);
        let extent = source[axis] as int;
        let count = window_count(extent, size as int, step as int, dilation as int);
        lemma_window_count(extent, size as int, step as int, dilation as int);
        let read = unwindowed(index, axis, step as nat, dilation as nat);
        assert forall|k: int| 0 <= k < source.len() implies #[trigger] read[k] < source[k] by {
            if k < axis {
                assert(read[k] == index[k] && target[k] == source[k]);
            } else if k == axis {
                let window = index[axis];
                let offset = index[axis + 1];
                assert(target[axis] == count as usize);
                assert(window < count && offset < size);
                assert(window * step + offset * dilation <= (count - 1) * step + dilation * (size - 1)) by (nonlinear_arith)
                    requires window < count, offset < size, step > 0, dilation > 0;
                assert(read[k] == window * step + offset * dilation);
            } else {
                assert(read[k] == index[k + 1] && target[k + 1] == source[k]);
            }
        }
    }
}


/// Returns the product of the extents from axis `k` on.
fn suffix_volume(axes: &[usize], k: usize) -> (product: usize)
    requires
        k <= axes@.len(),
        fits(axes@),
    ensures
        product == suffix_product(axes@, k as int),
{
    let mut running: usize = 1;
    let mut axis = axes.len();
    while axis > k
        invariant
            k <= axis <= axes@.len(),
            fits(axes@),
            running == suffix_product(axes@, axis as int),
        decreases axis,
    {
        axis = axis - 1;
        assert(suffix_product(axes@, axis as int) <= usize::MAX);
        running = axes[axis] * running;
    }
    running
}

/// Returns the product of the extents before axis `k`.
fn prefix_volume(axes: &[usize], k: usize) -> (product: usize)
    requires
        k <= axes@.len(),
        fits(axes@),
        all_positive(axes@),
    ensures
        product == prefix_product(axes@, k as int),
{
    let mut running: usize = 1;
    let mut axis: usize = 0;
    while axis < k
        invariant
            axis <= k <= axes@.len(),
            fits(axes@),
            all_positive(axes@),
            running == prefix_product(axes@, axis as int),
        decreases k - axis,
    {
        proof {
            lemma_volume_split(axes@, axis + 1);
            crate::shape::lemma_suffix_product_positive(axes@, axis + 1);
            let before = prefix_product(axes@, axis + 1);
            let after = suffix_product(axes@, axis + 1);
            assert(before <= before * after) by (nonlinear_arith)
                requires after >= 1;
            assert(suffix_product(axes@, 0) <= usize::MAX);
        }
        running = running * axes[axis];
        axis = axis + 1;
    }
    running
}

impl<Element: Copy> Tensor<Element> {
    /// Returns the row indices of a selection.
    fn selection_indices(&self) -> (indices: &[usize])
        requires
            self.selection_spec() is Some,
        ensures
            Some(indices@) == self.selection_spec(),
    {
        match &self.storage {
            Storage::Selection { indices, .. } => indices.as_slice(),
            _ => {
                assert(false);
                &[]
            },
        }
    }

    /// Returns the rows of `self` chosen by `selection`, a one-hot
    /// `[count, vocab]` selection whose vocabulary is `self`'s first axis:
    /// the result is `[count, ...]` and its row `i` is `self`'s row
    /// `indices[i]`.
    #[verifier::spinoff_prover]
    pub fn gather(&self, selection: &Self) -> (rows: Tensor<Element>)
        requires
            selection.selection_spec() is Some,
            self.shape_spec().len() >= 1,
            selection.shape_spec()[1] == self.shape_spec()[0],
            fits(self.shape_spec().update(0, selection.shape_spec()[0])),
        ensures
            rows.shape_spec() == self.shape_spec().update(0, selection.shape_spec()[0]),
            rows.elements().len() == selection.shape_spec()[0] * suffix_product(self.shape_spec(), 1),
            forall|row: int, offset: int|
                0 <= row < selection.shape_spec()[0] && 0 <= offset < suffix_product(self.shape_spec(), 1)
                    ==> #[trigger] entry(rows.elements(), suffix_product(self.shape_spec(), 1), row, offset)
                        == entry(self.elements(), suffix_product(self.shape_spec(), 1), selection.selection_spec()->0[row] as int, offset),
    {
        proof {
            use_type_invariant(self);
            use_type_invariant(selection);
            self.lemma_coherent();
        }
        let table = self.shape();
        let indices = selection.selection_indices();
        let row_size = suffix_volume(table.axes(), 1);
        let ghost width = row_size as nat;
        let ghost vocab = table@[0] as nat;
        let ghost count = indices@.len();
        let ghost target = table@.update(0, count as usize);
        proof {
            lemma_volume_split(table@, 1);
            lemma_volume_split(target, 1);
            lemma_suffix_same_tail(target, table@, 1);
            crate::shape::lemma_suffix_product_positive(table@, 1);
            crate::shape::lemma_prefix_first(table@);
            crate::shape::lemma_prefix_first(target);
            assert(suffix_product(table@, 0) <= usize::MAX);
            assert(suffix_product(target, 0) <= usize::MAX);
        }
        let mut elements: Vec<Element> = Vec::new();
        let mut row: usize = 0;
        while row < indices.len()
            invariant
                Some(indices@) == selection.selection_spec(),
                count == indices@.len(),
                forall|r: int| 0 <= r < count ==> #[trigger] indices@[r] < vocab,
                table@ == self.shape_spec(),
                row_size == width,
                width == suffix_product(table@, 1),
                volume_of(table@) == vocab * width,
                self.elements().len() == vocab * width,
                vocab * width <= usize::MAX,
                count * width <= usize::MAX,
                row <= count,
                elements@.len() == row * width,
                forall|r: int, offset: int| 0 <= r < row && 0 <= offset < width
                    ==> #[trigger] entry(elements@, width, r, offset) == entry(self.elements(), width, indices@[r] as int, offset),
            decreases count - row,
        {
            let source = indices[row];
            let mut offset: usize = 0;
            let ghost done = elements@;
            while offset < row_size
                invariant
                    Some(indices@) == selection.selection_spec(),
                    count == indices@.len(),
                    row < count,
                    source == indices@[row as int],
                    source < vocab,
                    row_size == width,
                    self.elements().len() == vocab * width,
                    vocab * width <= usize::MAX,
                    count * width <= usize::MAX,
                    done.len() == row * width,
                    offset <= width,
                    elements@.len() == row * width + offset,
                    elements@.subrange(0, done.len() as int) == done,
                    forall|o: int| 0 <= o < offset ==> #[trigger] elements@[row * width + o] == self.elements()[source * width + o],
                decreases width - offset,
            {
                proof {
                    assert(source * width + offset < vocab * width) by (nonlinear_arith)
                        requires source < vocab, offset < width;
                    assert(row * width + offset < count * width) by (nonlinear_arith)
                        requires row < count, offset < width;
                }
                let element = *self.get(source * row_size + offset);
                elements.push(element);
                offset = offset + 1;
                proof {
                    assert(elements@.subrange(0, done.len() as int) =~= done);
                }
            }
            proof {
                assert forall|r: int, o: int| 0 <= r < row + 1 && 0 <= o < width
                    implies #[trigger] entry(elements@, width, r, o) == entry(self.elements(), width, indices@[r] as int, o) by {
                    if r < row {
                        assert(r * width + o < row * width) by (nonlinear_arith)
                            requires r < row, o < width;
                        assert(elements@[r * width + o] == elements@.subrange(0, done.len() as int)[r * width + o]);
                        assert(entry(done, width, r, o) == entry(self.elements(), width, indices@[r] as int, o));
                    } else {
                        assert(elements@[row * width + o] == self.elements()[source * width + o]);
                    }
                }
                assert((row + 1) * width == row * width + width) by (nonlinear_arith);
            }
            row = row + 1;
        }
        let mut axes = vstd::slice::slice_to_vec(table.axes());
        axes.set(0, indices.len());
        let gathered = Shape::new(axes);
        proof {
            assert(gathered@ == target);
            assert(count > 0 && width > 0);
            assert(count * width > 0) by (nonlinear_arith)
                requires count > 0, width > 0;
        }
        Self::dense(gathered, elements)
    }
}


/// The element at `(outer, along, within)` of `elements` viewed as blocks
/// of `extent` rows of `inner` elements.
pub open spec fn block_entry<Element>(elements: Seq<Element>, extent: nat, inner: nat, outer: int, along: int, within: int) -> Element {
    elements[(outer * extent + along) * inner + within]
}

/// Narrowing a padded tensor back to the operand's window gives the
/// operand back: if `padded` holds the `axes`-shaped `operand` placed at
/// `start` along `axis` inside `zero`s of `full_extent`, and `window`
/// holds `padded` narrowed along `axis` to the operand's extent from
/// `start`, then `window` is `operand`.
pub proof fn law_narrow_undoes_pad<Element>(
    axes: Seq<usize>,
    axis: int,
    start: nat,
    full_extent: usize,
    zero: Element,
    operand: Seq<Element>,
    padded: Seq<Element>,
    window: Seq<Element>,
)
    requires
        all_positive(axes),
        0 <= axis < axes.len(),
        start + axes[axis] <= full_extent,
        operand.len() == volume_of(axes),
        forall|outer: int, along: int, within: int|
            0 <= outer < prefix_product(axes, axis) && 0 <= along < full_extent && 0 <= within < suffix_product(axes, axis + 1)
                ==> #[trigger] block_entry(padded, full_extent as nat, suffix_product(axes, axis + 1), outer, along, within)
                    == if start <= along < start + axes[axis] {
                        block_entry(operand, axes[axis] as nat, suffix_product(axes, axis + 1), outer, along - start, within)
                    } else {
                        zero
                    },
        window.len() == volume_of(axes),
        forall|position: int| 0 <= position < window.len() ==> #[trigger] window[position]
            == padded[flatten(axes.update(axis, full_extent), shifted(coordinates(axes, position as nat), axis, start)) as int],
    ensures
        window == operand,
{
    let wide = axes.update(axis, full_extent);
    let inner = suffix_product(axes, axis + 1);
    let length = axes[axis] as nat;
    assert(all_positive(wide)) by {
        assert forall|j: int| 0 <= j < wide.len() implies #[trigger] wide[j] > 0 by {
            if j != axis {
                assert(wide[j] == axes[j]);
            }
        }
    }
    assert(wide.take(axis) =~= axes.take(axis));
    crate::shape::lemma_suffix_same_tail(wide, axes, axis + 1);
    assert forall|position: int| 0 <= position < window.len() implies #[trigger] window[position] == operand[position] by {
        let index = coordinates(axes, position as nat);
        lemma_coordinates_within(axes, position as nat);
        let moved = shifted(index, axis, start);
        assert(within(wide, moved)) by {
            assert forall|j: int| 0 <= j < wide.len() implies #[trigger] moved[j] < wide[j] by {
                if j != axis {
                    assert(moved[j] == index[j] && wide[j] == axes[j]);
                }
            }
        }
        crate::layout::lemma_flatten_split(axes, index, axis);
        crate::layout::lemma_flatten_split(wide, moved, axis);
        assert(moved.take(axis) =~= index.take(axis));
        crate::layout::lemma_flatten_same_tail(wide, moved, axes, index, axis + 1);
        crate::layout::lemma_flatten_of_coordinates(axes, position as nat);
        let block = flatten(axes.take(axis), index.take(axis));
        let rest = crate::layout::flatten_from(axes, index, axis + 1);
        assert(block_entry(padded, full_extent as nat, inner, block as int, (index[axis] + start) as int, rest as int)
            == block_entry(operand, length, inner, block as int, index[axis] as int, rest as int));
    }
    assert(window =~= operand);
}

/// Appends `count` copies of `value`.
fn push_fill<Element: Copy>(elements: &mut Vec<Element>, value: Element, count: usize)
    ensures
        final(elements)@ == old(elements)@ + Seq::new(count as nat, |k: int| value),
{
    let ghost before = elements@;
    let mut pushed: usize = 0;
    while pushed < count
        invariant
            pushed <= count,
            elements@ == before + Seq::new(pushed as nat, |k: int| value),
        decreases count - pushed,
    {
        elements.push(value);
        pushed = pushed + 1;
        assert(elements@ =~= before + Seq::new(pushed as nat, |k: int| value));
    }
}

impl<Element: Copy> Tensor<Element> {
    /// Appends the `count` elements at logical positions from `base` on.
    fn push_run(&self, elements: &mut Vec<Element>, base: usize, count: usize)
        requires
            base + count <= self.elements().len(),
        ensures
            final(elements)@ == old(elements)@ + self.elements().subrange(base as int, base + count),
    {
        proof {
            use_type_invariant(self);
            self.lemma_coherent();
        }
        let ghost before = elements@;
        let mut pushed: usize = 0;
        while pushed < count
            invariant
                base + count <= self.elements().len(),
                self.elements().len() <= usize::MAX,
                pushed <= count,
                elements@ == before + self.elements().subrange(base as int, base + pushed),
            decreases count - pushed,
        {
            let element = *self.get(base + pushed);
            elements.push(element);
            pushed = pushed + 1;
            assert(elements@ =~= before + self.elements().subrange(base as int, base + pushed));
        }
    }

    /// Returns `self` placed at `start` along `axis` inside a tensor whose
    /// `axis` has extent `full_extent`, with `zero` elsewhere.
    ///
    /// Viewed as `[outer, axis, inner]` blocks, position `along` of the
    /// padded axis holds the operand's position `along - start` where that
    /// lies within the operand, and `zero` otherwise.
    #[verifier::spinoff_prover]
    pub fn pad(&self, axis: usize, start: usize, full_extent: usize, zero: Element) -> (padded: Tensor<Element>)
        requires
            axis < self.shape_spec().len(),
            start + self.shape_spec()[axis as int] <= full_extent,
            fits(self.shape_spec().update(axis as int, full_extent)),
        ensures
            padded.shape_spec() == self.shape_spec().update(axis as int, full_extent),
            padded.elements().len() == volume_of(padded.shape_spec()),
            volume_of(padded.shape_spec()) == prefix_product(self.shape_spec(), axis as int) * full_extent
                * suffix_product(self.shape_spec(), axis + 1),
            forall|outer: int, along: int, within: int|
                0 <= outer < prefix_product(self.shape_spec(), axis as int) && 0 <= along < full_extent
                    && 0 <= within < suffix_product(self.shape_spec(), axis + 1)
                    ==> #[trigger] block_entry(padded.elements(), full_extent as nat, suffix_product(self.shape_spec(), axis + 1), outer, along, within)
                        == if start <= along < start + self.shape_spec()[axis as int] {
                            block_entry(
                                self.elements(),
                                self.shape_spec()[axis as int] as nat,
                                suffix_product(self.shape_spec(), axis + 1),
                                outer,
                                along - start,
                                within,
                            )
                        } else {
                            zero
                        },
    {
        proof {
            use_type_invariant(self);
            self.lemma_coherent();
        }
        let shape = self.shape();
        let axes = shape.axes();
        let len = axes[axis];
        let end = start + len;
        let outer = prefix_volume(axes, axis);
        let inner = suffix_volume(axes, axis + 1);
        let ghost source = shape@;
        let ghost target = source.update(axis as int, full_extent);
        let ghost width = inner as nat;
        let ghost blocks = outer as nat;
        proof {
            lemma_volume_split(source, axis as int);
            lemma_volume_split(target, axis as int);
            lemma_prefix_same_head(source, target, axis as int);
            lemma_suffix_same_tail(source, target, axis + 1);
            assert(suffix_product(source, axis as int) == len * width);
            assert(suffix_product(target, axis as int) == full_extent * width);
            assert(blocks * (len * width) == blocks * len * width) by (nonlinear_arith);
            assert(blocks * (full_extent * width) == blocks * full_extent * width) by (nonlinear_arith);
            assert(suffix_product(target, 0) <= usize::MAX);
            assert(suffix_product(source, 0) <= usize::MAX);
            crate::shape::lemma_suffix_product_positive(source, axis + 1);
        }
        let mut elements: Vec<Element> = Vec::new();
        let mut block: usize = 0;
        while block < outer
            invariant
                source == self.shape_spec(),
                len == source[axis as int],
                end == start + len,
                width == suffix_product(source, axis + 1),
                inner == width,
                width > 0,
                outer == blocks,
                self.elements().len() == blocks * len * width,
                blocks * len * width <= usize::MAX,
                blocks * full_extent * width <= usize::MAX,
                block <= blocks,
                elements@.len() == block * full_extent * width,
                forall|o: int, q: int, i: int| 0 <= o < block && 0 <= q < full_extent && 0 <= i < width
                    ==> #[trigger] block_entry(elements@, full_extent as nat, width, o, q, i)
                        == if start <= q < end { block_entry(self.elements(), len as nat, width, o, q - start, i) } else { zero },
            decreases blocks - block,
        {
            let ghost done = elements@;
            let mut along: usize = 0;
            while along < full_extent
                invariant
                    len == source[axis as int],
                    end == start + len,
                    inner == width,
                    width > 0,
                    self.elements().len() == blocks * len * width,
                    blocks * len * width <= usize::MAX,
                    blocks * full_extent * width <= usize::MAX,
                    block < blocks,
                    done.len() == block * full_extent * width,
                    along <= full_extent,
                    elements@.len() == (block * full_extent + along) * width,
                    elements@.subrange(0, done.len() as int) == done,
                    forall|q: int, i: int| 0 <= q < along && 0 <= i < width
                        ==> #[trigger] block_entry(elements@, full_extent as nat, width, block as int, q, i)
                            == if start <= q < end { block_entry(self.elements(), len as nat, width, block as int, q - start, i) } else { zero },
                decreases full_extent - along,
            {
                let ghost row = elements@;
                proof {
                    assert((block * full_extent + along + 1) * width <= blocks * full_extent * width) by (nonlinear_arith)
                        requires block < blocks, along < full_extent, width >= 0;
                    assert((block * full_extent + along) * width + width == (block * full_extent + along + 1) * width)
                        by (nonlinear_arith);
                }
                if start <= along && along < end {
                    proof {
                        assert((block * len + (along - start) + 1) * width <= blocks * len * width) by (nonlinear_arith)
                            requires block < blocks, along - start < len, width >= 0;
                        assert((block * len + (along - start)) * width + width == (block * len + (along - start) + 1) * width)
                            by (nonlinear_arith);
                        assert(block * len + (along - start) < blocks * len) by (nonlinear_arith)
                            requires block < blocks, along - start < len;
                        assert(blocks * len <= blocks * len * width) by (nonlinear_arith)
                            requires width >= 1;
                    }
                    self.push_run(&mut elements, (block * len + (along - start)) * inner, inner);
                } else {
                    push_fill(&mut elements, zero, inner);
                }
                proof {
                    let base = (block * full_extent + along) * width;
                    assert forall|q: int, i: int| 0 <= q < along + 1 && 0 <= i < width
                        implies #[trigger] block_entry(elements@, full_extent as nat, width, block as int, q, i)
                            == if start <= q < end { block_entry(self.elements(), len as nat, width, block as int, q - start, i) } else { zero } by {
                        if q < along {
                            assert((block * full_extent + q) * width + i < base) by (nonlinear_arith)
                                requires q < along, i < width, base == (block * full_extent + along) * width;
                            assert(block_entry(row, full_extent as nat, width, block as int, q, i)
                                == block_entry(elements@, full_extent as nat, width, block as int, q, i));
                        } else {
                            assert((block * full_extent + q) * width + i == base + i);
                        }
                    }
                    assert(elements@.subrange(0, done.len() as int) =~= done) by {
                        assert(done.len() <= row.len()) by (nonlinear_arith)
                            requires done.len() == block * full_extent * width,
                                row.len() == (block * full_extent + along) * width, along >= 0, width >= 0;
                        assert forall|j: int| 0 <= j < done.len() implies #[trigger] elements@[j] == row[j] by {}
                        assert(row.subrange(0, done.len() as int) == done);
                    }
                }
                along = along + 1;
            }
            proof {
                assert(done.len() <= elements@.len()) by (nonlinear_arith)
                    requires done.len() == block * full_extent * width,
                        elements@.len() == (block * full_extent + full_extent) * width, width >= 0, full_extent >= 0;
                assert forall|o: int, q: int, i: int| 0 <= o < block + 1 && 0 <= q < full_extent && 0 <= i < width
                    implies #[trigger] block_entry(elements@, full_extent as nat, width, o, q, i)
                        == if start <= q < end { block_entry(self.elements(), len as nat, width, o, q - start, i) } else { zero } by {
                    if o < block {
                        assert((o * full_extent + q) * width + i < block * full_extent * width) by (nonlinear_arith)
                            requires o < block, q < full_extent, i < width;
                        assert(block_entry(done, full_extent as nat, width, o, q, i)
                            == block_entry(elements@, full_extent as nat, width, o, q, i)) by {
                            assert(elements@.subrange(0, done.len() as int)[(o * full_extent + q) * width + i]
                                == elements@[(o * full_extent + q) * width + i]);
                        }
                    }
                }
                assert((block + 1) * full_extent * width == (block * full_extent + full_extent) * width) by (nonlinear_arith);
            }
            block = block + 1;
        }
        let mut extents = vstd::slice::slice_to_vec(axes);
        extents.set(axis, full_extent);
        let padded_shape = Shape::new(extents);
        proof {
            assert(padded_shape@ == target);
            crate::shape::lemma_suffix_product_positive(source, 0);
            assert(full_extent > 0);
            lemma_positive_extents(source, 0);
            crate::shape::lemma_suffix_product_positive(source, axis + 1);
            assert(blocks > 0) by {
                assert(blocks * (len * width) == volume_of(source));
                assert(blocks * (len * width) > 0);
                if blocks == 0 {
                    assert(blocks * (len * width) == 0) by (nonlinear_arith)
                        requires blocks == 0;
                }
            }
            assert(blocks * full_extent * width > 0) by (nonlinear_arith)
                requires blocks > 0, full_extent > 0, width > 0;
        }
        Self::dense(padded_shape, elements)
    }
}


/// Whether `partials` runs `combine` over `inputs` from `start`: it begins
/// at `start`, and each next partial is `combine` of the previous one
/// and the next input.
pub open spec fn chained<Element, F: Fn(&Element, &Element) -> Element>(
    combine: F,
    start: Element,
    inputs: Seq<Element>,
    partials: Seq<Element>,
) -> bool {
    &&& partials.len() == inputs.len() + 1
    &&& partials[0] == start
    &&& forall|j: int| 0 <= j < inputs.len() ==> combine.ensures((&partials[j], &inputs[j]), #[trigger] partials[j + 1])
}

/// Whether `result` is `combine` folded over `inputs` from `start`, left to
/// right.
pub open spec fn folded_by<Element, F: Fn(&Element, &Element) -> Element>(
    combine: F,
    start: Element,
    inputs: Seq<Element>,
    result: Element,
) -> bool {
    exists|partials: Seq<Element>| #[trigger] chained(combine, start, inputs, partials) && partials.last() == result
}

/// The elements along the middle axis of `elements` viewed as
/// `[outer, extent, inner]` blocks, at block `outer` and inner offset
/// `within`.
pub open spec fn lane<Element>(elements: Seq<Element>, extent: nat, inner: nat, outer: int, within: int) -> Seq<Element> {
    Seq::new(extent, |along: int| block_entry(elements, extent, inner, outer, along, within))
}

impl<Element: Copy> Tensor<Element> {
    /// Folds `combine` left to right over the `count` elements at logical
    /// positions `first`, `first + gap`, ..., starting from the first.
    fn fold_strided<F: Fn(&Element, &Element) -> Element>(&self, first: usize, gap: usize, count: usize, combine: &F) -> (total: Element)
        requires
            count >= 1,
            first + (count - 1) * gap < self.elements().len(),
            forall|a: Element, b: Element| #[trigger] combine.requires((&a, &b)),
        ensures
            folded_by(
                *combine,
                self.elements()[first as int],
                Seq::new((count - 1) as nat, |j: int| self.elements()[first + (j + 1) * gap]),
                total,
            ),
    {
        proof {
            use_type_invariant(self);
            self.lemma_coherent();
        }
        let ghost inputs = Seq::new((count - 1) as nat, |j: int| self.elements()[first + (j + 1) * gap]);
        let mut total = *self.get(first);
        let ghost mut partials = seq![total];
        let mut taken: usize = 1;
        while taken < count
            invariant
                1 <= taken <= count,
                first + (count - 1) * gap < self.elements().len(),
                self.elements().len() <= usize::MAX,
                forall|a: Element, b: Element| #[trigger] combine.requires((&a, &b)),
                inputs == Seq::new((count - 1) as nat, |j: int| self.elements()[first + (j + 1) * gap]),
                chained(*combine, self.elements()[first as int], inputs.take(taken - 1), partials),
                partials.last() == total,
            decreases count - taken,
        {
            proof {
                assert(taken * gap <= (count - 1) * gap) by (nonlinear_arith)
                    requires taken <= count - 1;
            }
            let next = *self.get(first + taken * gap);
            let combined = combine(&total, &next);
            proof {
                assert(next == inputs[taken - 1]);
                let extended = partials.push(combined);
                assert(inputs.take(taken as int) == inputs.take(taken - 1).push(next));
                assert(chained(*combine, self.elements()[first as int], inputs.take(taken as int), extended));
                partials = extended;
            }
            total = combined;
            taken = taken + 1;
        }
        proof {
            assert(inputs.take(count - 1) == inputs);
        }
        total
    }

    /// Folds `combine` along `axis`: the elements are viewed as
    /// `[outer, axis, inner]` blocks in logical order, and every lane
    /// along the middle axis is folded left to right from its first
    /// element.
    #[verifier::spinoff_prover]
    fn reduce_along<F: Fn(&Element, &Element) -> Element>(&self, axis: usize, combine: &F) -> (reduced: Tensor<Element>)
        requires
            axis < self.shape_spec().len(),
            forall|a: Element, b: Element| #[trigger] combine.requires((&a, &b)),
        ensures
            reduced.shape_spec() == self.shape_spec().remove(axis as int),
            reduced.elements().len() == prefix_product(self.shape_spec(), axis as int) * suffix_product(self.shape_spec(), axis + 1),
            forall|outer: int, within: int|
                0 <= outer < prefix_product(self.shape_spec(), axis as int) && 0 <= within < suffix_product(self.shape_spec(), axis + 1)
                    ==> #[trigger] folded_by(
                        *combine,
                        lane(self.elements(), self.shape_spec()[axis as int] as nat, suffix_product(self.shape_spec(), axis + 1), outer, within)[0],
                        lane(self.elements(), self.shape_spec()[axis as int] as nat, suffix_product(self.shape_spec(), axis + 1), outer, within).drop_first(),
                        entry(reduced.elements(), suffix_product(self.shape_spec(), axis + 1), outer, within),
                    ),
    {
        proof {
            use_type_invariant(self);
            self.lemma_coherent();
        }
        let shape = self.shape();
        let axes = shape.axes();
        let extent = axes[axis];
        let outer = prefix_volume(axes, axis);
        let inner = suffix_volume(axes, axis + 1);
        let ghost source = shape@;
        let ghost width = inner as nat;
        let ghost blocks = outer as nat;
        let ghost length = extent as nat;
        let ghost target = source.remove(axis as int);
        proof {
            lemma_volume_split(source, axis as int);
            assert(suffix_product(source, axis as int) == length * width);
            assert(blocks * (length * width) == blocks * length * width) by (nonlinear_arith);
            assert(suffix_product(source, 0) <= usize::MAX);
            crate::shape::lemma_suffix_product_positive(source, axis + 1);
            lemma_positive_extents(source, 0);
            assert(length > 0);
            assert(blocks * width <= blocks * length * width) by (nonlinear_arith)
                requires length >= 1;
            lemma_volume_split(target, axis as int);
            lemma_prefix_same_head(source, target, axis as int);
            assert(suffix_product(target, axis as int) == width) by {
                lemma_suffix_same_shift(source, target, axis + 1);
            }
        }
        let mut totals: Vec<Element> = Vec::new();
        let mut block: usize = 0;
        while block < outer
            invariant
                source == self.shape_spec(),
                length == source[axis as int],
                extent == length,
                width == suffix_product(source, axis + 1),
                inner == width,
                width > 0,
                length > 0,
                outer == blocks,
                self.elements().len() == blocks * length * width,
                blocks * length * width <= usize::MAX,
                forall|a: Element, b: Element| #[trigger] combine.requires((&a, &b)),
                block <= blocks,
                totals@.len() == block * width,
                forall|o: int, w: int| 0 <= o < block && 0 <= w < width
                    ==> #[trigger] folded_by(
                        *combine,
                        lane(self.elements(), length, width, o, w)[0],
                        lane(self.elements(), length, width, o, w).drop_first(),
                        entry(totals@, width, o, w),
                    ),
            decreases blocks - block,
        {
            let ghost done = totals@;
            let mut within: usize = 0;
            while within < inner
                invariant
                    length == source[axis as int],
                    extent == length,
                    inner == width,
                    width > 0,
                    length > 0,
                    self.elements().len() == blocks * length * width,
                    blocks * length * width <= usize::MAX,
                    forall|a: Element, b: Element| #[trigger] combine.requires((&a, &b)),
                    block < blocks,
                    done.len() == block * width,
                    within <= width,
                    totals@.len() == block * width + within,
                    totals@.subrange(0, done.len() as int) == done,
                    forall|w: int| 0 <= w < within
                        ==> #[trigger] folded_by(
                            *combine,
                            lane(self.elements(), length, width, block as int, w)[0],
                            lane(self.elements(), length, width, block as int, w).drop_first(),
                            totals@[block * width + w],
                        ),
                decreases width - within,
            {
                let ghost first = (block * length * width + within) as int;
                proof {
                    assert(block * length * width + within + (length - 1) * width < blocks * length * width) by (nonlinear_arith)
                        requires block < blocks, within < width, length >= 1;
                    assert(block * length <= block * length * width) by (nonlinear_arith)
                        requires width >= 1;
                    assert(block * length * width <= blocks * length * width) by (nonlinear_arith)
                        requires block < blocks;
                    assert(block * extent * inner + within == first);
                }
                let total = self.fold_strided(block * extent * inner + within, inner, extent, combine);
                proof {
                    let strip = lane(self.elements(), length, width, block as int, within as int);
                    let read = Seq::new((length - 1) as nat, |j: int| self.elements()[first + (j + 1) * width]);
                    assert((block * length + 0) * width + within == first) by (nonlinear_arith)
                        requires first == block * length * width + within;
                    assert(strip[0] == self.elements()[first]);
                    assert forall|j: int| 0 <= j < read.len() implies #[trigger] strip.drop_first()[j] == read[j] by {
                        assert((block * length + (j + 1)) * width + within == first + (j + 1) * width) by (nonlinear_arith)
                            requires first == block * length * width + within;
                    }
                    assert(strip.drop_first() =~= read);
                }
                let ghost row = totals@;
                totals.push(total);
                proof {
                    assert(totals@.subrange(0, done.len() as int) =~= done) by {
                        assert(row.subrange(0, done.len() as int) == done);
                    }
                    assert forall|w: int| 0 <= w < within + 1
                        implies #[trigger] folded_by(
                            *combine,
                            lane(self.elements(), length, width, block as int, w)[0],
                            lane(self.elements(), length, width, block as int, w).drop_first(),
                            totals@[block * width + w],
                        ) by {
                        if w < within {
                            assert(totals@[block * width + w] == row[block * width + w]);
                        }
                    }
                }
                within = within + 1;
            }
            proof {
                assert(done.len() <= totals@.len());
                assert forall|o: int, w: int| 0 <= o < block + 1 && 0 <= w < width
                    implies #[trigger] folded_by(
                        *combine,
                        lane(self.elements(), length, width, o, w)[0],
                        lane(self.elements(), length, width, o, w).drop_first(),
                        entry(totals@, width, o, w),
                    ) by {
                    if o < block {
                        assert(o * width + w < block * width) by (nonlinear_arith)
                            requires o < block, w < width;
                        assert(entry(done, width, o, w) == entry(totals@, width, o, w)) by {
                            assert(totals@.subrange(0, done.len() as int)[o * width + w] == totals@[o * width + w]);
                        }
                    }
                }
                assert((block + 1) * width == block * width + width) by (nonlinear_arith);
            }
            block = block + 1;
        }
        let reduced_shape = shape.without_axis(axis);
        proof {
            assert(reduced_shape@ == target);
            assert(blocks > 0) by {
                assert(blocks * (length * width) == volume_of(source));
                if blocks == 0 {
                    assert(blocks * (length * width) == 0) by (nonlinear_arith)
                        requires blocks == 0;
                }
            }
            assert(blocks * width > 0) by (nonlinear_arith)
                requires blocks > 0, width > 0;
            assert(volume_of(target) == blocks * width);
            assert forall|k: int| 0 <= k < target.len() implies #[trigger] target[k] > 0 by {
                if k < axis {
                    assert(target[k] == source[k]);
                } else {
                    assert(target[k] == source[k + 1]);
                }
            }
            assert(blocks * width <= blocks * length * width);
            crate::shape::lemma_fits_from_volume(target);
        }
        Self::dense(reduced_shape, totals)
    }
}


impl<Element: Copy> Tensor<Element> {
    /// Returns the sum of every element, accumulated by `add` in logical
    /// order from left to right without pairwise or compensated
    /// summation, as a rank-0 constant.
    pub fn sum<F: Fn(&Element, &Element) -> Element>(&self, add: F) -> (total: Tensor<Element>)
        requires
            forall|a: Element, b: Element| #[trigger] add.requires((&a, &b)),
        ensures
            total.shape_spec() == Seq::<usize>::empty(),
            total.elements().len() == 1,
            folded_by(add, self.elements()[0], self.elements().drop_first(), total.elements()[0]),
    {
        proof {
            use_type_invariant(self);
            self.lemma_coherent();
        }
        let count = self.shape().volume();
        let adding = &add;
        let sum = self.fold_strided(0, 1, count, adding);
        proof {
            let read = Seq::new((count - 1) as nat, |j: int| self.elements()[0 + (j + 1) * 1]);
            assert(read =~= self.elements().drop_first());
        }
        let total = Self::filled(Shape::scalar(), sum);
        proof {
            assert(total.elements()[0] == sum);
        }
        total
    }

    /// Returns the tensor with `axis` reduced by summation with `add`: the
    /// elements are viewed as `[outer, axis, inner]` in logical order and
    /// every lane along the middle axis is summed left to right.
    pub fn sum_along<F: Fn(&Element, &Element) -> Element>(&self, axis: usize, add: F) -> (summed: Tensor<Element>)
        requires
            axis < self.shape_spec().len(),
            forall|a: Element, b: Element| #[trigger] add.requires((&a, &b)),
        ensures
            summed.shape_spec() == self.shape_spec().remove(axis as int),
            summed.elements().len() == prefix_product(self.shape_spec(), axis as int) * suffix_product(self.shape_spec(), axis + 1),
            forall|outer: int, within: int|
                0 <= outer < prefix_product(self.shape_spec(), axis as int) && 0 <= within < suffix_product(self.shape_spec(), axis + 1)
                    ==> #[trigger] folded_by(
                        add,
                        lane(self.elements(), self.shape_spec()[axis as int] as nat, suffix_product(self.shape_spec(), axis + 1), outer, within)[0],
                        lane(self.elements(), self.shape_spec()[axis as int] as nat, suffix_product(self.shape_spec(), axis + 1), outer, within).drop_first(),
                        entry(summed.elements(), suffix_product(self.shape_spec(), axis + 1), outer, within),
                    ),
    {
        let adding = &add;
        self.reduce_along(axis, adding)
    }

    /// Returns the tensor with `axis` reduced to its largest element by the
    /// elementwise `maximum`, lane by lane as in [`sum_along`](Self::sum_along).
    pub fn max_along<F: Fn(&Element, &Element) -> Element>(&self, axis: usize, maximum: F) -> (largest: Tensor<Element>)
        requires
            axis < self.shape_spec().len(),
            forall|a: Element, b: Element| #[trigger] maximum.requires((&a, &b)),
        ensures
            largest.shape_spec() == self.shape_spec().remove(axis as int),
            largest.elements().len() == prefix_product(self.shape_spec(), axis as int) * suffix_product(self.shape_spec(), axis + 1),
            forall|outer: int, within: int|
                0 <= outer < prefix_product(self.shape_spec(), axis as int) && 0 <= within < suffix_product(self.shape_spec(), axis + 1)
                    ==> #[trigger] folded_by(
                        maximum,
                        lane(self.elements(), self.shape_spec()[axis as int] as nat, suffix_product(self.shape_spec(), axis + 1), outer, within)[0],
                        lane(self.elements(), self.shape_spec()[axis as int] as nat, suffix_product(self.shape_spec(), axis + 1), outer, within).drop_first(),
                        entry(largest.elements(), suffix_product(self.shape_spec(), axis + 1), outer, within),
                    ),
    {
        let taking = &maximum;
        self.reduce_along(axis, taking)
    }
}


/// The shape the windows along `axis`, `axis + 1` fold back to: the
/// window pair becomes one axis of `extent`.
pub open spec fn folded_axes(axes: Seq<usize>, axis: int, extent: usize) -> Seq<usize> {
    axes.remove(axis + 1).update(axis, extent)
}

/// The window elements that fold onto `position` of an axis, in window
/// order: window element `j` of window `w` reads `position` exactly when
/// `w * step + j * dilation == position`, so walking the element index `j`
/// down from `size - 1` visits the windows in ascending order; these are
/// the reads of the first `k` steps of that walk. The windows are viewed
/// as `[outer, count, size, inner]` blocks.
pub open spec fn folded_reads<Element>(
    elements: Seq<Element>,
    count: nat,
    size: nat,
    inner: nat,
    outer: int,
    position: int,
    within: int,
    step: nat,
    dilation: nat,
    k: nat,
) -> Seq<Element>
    decreases k,
{
    if k == 0 {
        Seq::empty()
    } else {
        let earlier = folded_reads(elements, count, size, inner, outer, position, within, step, dilation, (k - 1) as nat);
        let j = (size - k) as nat;
        let reach = j * dilation;
        if reach <= position && (position - reach) % (step as int) == 0 && (position - reach) / (step as int) < count {
            earlier.push(elements[((outer * count + (position - reach) / (step as int)) * size + j) * inner + within])
        } else {
            earlier
        }
    }
}

impl<Element: Copy> Tensor<Element> {
    /// Accumulates with `accumulate`, from `zero`, the window elements that fold
    /// onto `position` at block `outer` and inner offset `within`.
    fn fold_position<F: Fn(&Element, &Element) -> Element>(
        &self,
        count: usize,
        size: usize,
        inner: usize,
        step: usize,
        dilation: usize,
        outer: usize,
        position: usize,
        within: usize,
        zero: Element,
        accumulate: &F,
    ) -> (total: Element)
        requires
            size > 0,
            step > 0,
            within < inner,
            (outer + 1) * count * size * inner <= self.elements().len(),
            (size - 1) * dilation <= usize::MAX,
            forall|a: Element, b: Element| #[trigger] accumulate.requires((&a, &b)),
        ensures
            folded_by(
                *accumulate,
                zero,
                folded_reads(self.elements(), count as nat, size as nat, inner as nat, outer as int, position as int, within as int, step as nat, dilation as nat, size as nat),
                total,
            ),
    {
        proof {
            use_type_invariant(self);
            self.lemma_coherent();
        }
        let mut total = zero;
        let ghost mut partials = seq![zero];
        let mut k: usize = 0;
        while k < size
            invariant
                size > 0,
                step > 0,
                within < inner,
                (outer + 1) * count * size * inner <= self.elements().len(),
                self.elements().len() <= usize::MAX,
                (size - 1) * dilation <= usize::MAX,
                forall|a: Element, b: Element| #[trigger] accumulate.requires((&a, &b)),
                k <= size,
                chained(
                    *accumulate,
                    zero,
                    folded_reads(self.elements(), count as nat, size as nat, inner as nat, outer as int, position as int, within as int, step as nat, dilation as nat, k as nat),
                    partials,
                ),
                partials.last() == total,
            decreases size - k,
        {
            let ghost before = folded_reads(self.elements(), count as nat, size as nat, inner as nat, outer as int, position as int, within as int, step as nat, dilation as nat, k as nat);
            let element = size - 1 - k;
            proof {
                assert(element * dilation <= (size - 1) * dilation) by (nonlinear_arith)
                    requires element <= size - 1;
            }
            let reach = element * dilation;
            if reach <= position {
                let rest = position - reach;
                if rest % step == 0 {
                    let window = rest / step;
                    if window < count {
                        proof {
                            let whole = (outer + 1) * count * size;
                            let slot = (outer * count + window) * size + element;
                            assert(slot < whole) by (nonlinear_arith)
                                requires window < count, element < size, slot == (outer * count + window) * size + element,
                                    whole == (outer + 1) * count * size;
                            assert(slot * inner + within < whole * inner) by (nonlinear_arith)
                                requires slot < whole, within < inner;
                            assert(whole <= whole * inner) by (nonlinear_arith)
                                requires inner >= 1, whole >= 0;
                            assert(outer * count + window <= (outer * count + window) * size) by (nonlinear_arith)
                                requires size >= 1;
                            assert(slot <= slot * inner) by (nonlinear_arith)
                                requires inner >= 1, slot >= 0;
                        }
                        let source = ((outer * count + window) * size + element) * inner + within;
                        let next = *self.get(source);
                        let combined = accumulate(&total, &next);
                        proof {
                            let extended = partials.push(combined);
                            assert(chained(*accumulate, zero, before.push(next), extended));
                            partials = extended;
                        }
                        total = combined;
                    }
                }
            }
            k = k + 1;
        }
        total
    }

    /// Appends, for every inner offset of block `outer`, the accumulation
    /// of the window elements that fold onto `position`.
    fn push_folded_run<F: Fn(&Element, &Element) -> Element>(
        &self,
        elements: &mut Vec<Element>,
        count: usize,
        size: usize,
        inner: usize,
        step: usize,
        dilation: usize,
        outer: usize,
        position: usize,
        zero: Element,
        accumulate: &F,
    )
        requires
            size > 0,
            step > 0,
            (outer + 1) * count * size * inner <= self.elements().len(),
            (size - 1) * dilation <= usize::MAX,
            forall|a: Element, b: Element| #[trigger] accumulate.requires((&a, &b)),
        ensures
            final(elements)@.len() == old(elements)@.len() + inner,
            final(elements)@.subrange(0, old(elements)@.len() as int) == old(elements)@,
            forall|within: int| 0 <= within < inner ==> #[trigger] folded_by(
                *accumulate,
                zero,
                folded_reads(self.elements(), count as nat, size as nat, inner as nat, outer as int, position as int, within, step as nat, dilation as nat, size as nat),
                final(elements)@[old(elements)@.len() + within],
            ),
    {
        let ghost before = elements@;
        let mut within: usize = 0;
        while within < inner
            invariant
                size > 0,
                step > 0,
                (outer + 1) * count * size * inner <= self.elements().len(),
                (size - 1) * dilation <= usize::MAX,
                forall|a: Element, b: Element| #[trigger] accumulate.requires((&a, &b)),
                within <= inner,
                elements@.len() == before.len() + within,
                elements@.subrange(0, before.len() as int) == before,
                forall|w: int| 0 <= w < within ==> #[trigger] folded_by(
                    *accumulate,
                    zero,
                    folded_reads(self.elements(), count as nat, size as nat, inner as nat, outer as int, position as int, w, step as nat, dilation as nat, size as nat),
                    elements@[before.len() + w],
                ),
            decreases inner - within,
        {
            let total = self.fold_position(count, size, inner, step, dilation, outer, position, within, zero, accumulate);
            let ghost row = elements@;
            elements.push(total);
            proof {
                assert(elements@.subrange(0, before.len() as int) =~= before) by {
                    assert(row.subrange(0, before.len() as int) == before);
                }
                assert forall|w: int| 0 <= w < within + 1 implies #[trigger] folded_by(
                    *accumulate,
                    zero,
                    folded_reads(self.elements(), count as nat, size as nat, inner as nat, outer as int, position as int, w, step as nat, dilation as nat, size as nat),
                    elements@[before.len() + w],
                ) by {
                    if w < within {
                        assert(elements@[before.len() + w] == row[before.len() + w]);
                    }
                }
            }
            within = within + 1;
        }
    }

    /// Returns the `(count, size)` window pair at `axis`, `axis + 1` folded
    /// back onto an axis of `extent`: the adjoint of
    /// [`unfold`](Self::unfold). Each position accumulates with `add`, from
    /// `zero` and in window order, the window elements that were read from
    /// it, so the result is deterministic; positions no window reaches fold
    /// to `zero`.
    #[verifier::spinoff_prover]
    pub fn fold<F: Fn(&Element, &Element) -> Element>(
        &self,
        axis: usize,
        size: usize,
        step: usize,
        dilation: usize,
        extent: usize,
        zero: Element,
        add: F,
    ) -> (folded: Tensor<Element>)
        requires
            axis + 1 < self.shape_spec().len(),
            size > 0,
            step > 0,
            dilation > 0,
            dilation * (size - 1) + 1 <= extent,
            self.shape_spec()[axis as int] == window_count(extent as int, size as int, step as int, dilation as int),
            self.shape_spec()[axis + 1] == size,
            fits(folded_axes(self.shape_spec(), axis as int, extent)),
            forall|a: Element, b: Element| #[trigger] add.requires((&a, &b)),
        ensures
            folded.shape_spec() == folded_axes(self.shape_spec(), axis as int, extent),
            folded.elements().len() == prefix_product(self.shape_spec(), axis as int) * extent * suffix_product(self.shape_spec(), axis + 2),
            forall|outer: int, along: int, within: int|
                0 <= outer < prefix_product(self.shape_spec(), axis as int) && 0 <= along < extent
                    && 0 <= within < suffix_product(self.shape_spec(), axis + 2)
                    ==> #[trigger] folded_by(
                        add,
                        zero,
                        folded_reads(
                            self.elements(),
                            self.shape_spec()[axis as int] as nat,
                            size as nat,
                            suffix_product(self.shape_spec(), axis + 2),
                            outer,
                            along,
                            within,
                            step as nat,
                            dilation as nat,
                            size as nat,
                        ),
                        block_entry(folded.elements(), extent as nat, suffix_product(self.shape_spec(), axis + 2), outer, along, within),
                    ),
    {
        proof {
            use_type_invariant(self);
            self.lemma_coherent();
        }
        let shape = self.shape();
        let axes = shape.axes();
        let count = axes[axis];
        let outer = prefix_volume(axes, axis);
        let inner = suffix_volume(axes, axis + 2);
        let ghost source = shape@;
        let ghost target = folded_axes(source, axis as int, extent);
        let ghost width = inner as nat;
        let ghost blocks = outer as nat;
        let ghost windows = count as nat;
        proof {
            lemma_volume_split(source, axis as int);
            assert(suffix_product(source, axis + 1) == size * width);
            assert(suffix_product(source, axis as int) == windows * (size * width));
            assert(blocks * (windows * (size * width)) == blocks * windows * size * width) by (nonlinear_arith);
            assert(suffix_product(source, 0) <= usize::MAX);
            crate::shape::lemma_suffix_product_positive(source, axis + 2);
            lemma_volume_split(target, axis as int);
            lemma_prefix_same_head(source, target, axis as int);
            lemma_suffix_same_shift(source, target, axis + 2);
            assert(suffix_product(target, axis + 1) == width);
            assert(suffix_product(target, axis as int) == extent * width);
            assert(blocks * (extent * width) == blocks * extent * width) by (nonlinear_arith);
            assert(suffix_product(target, 0) <= usize::MAX);
            assert((size - 1) * dilation <= extent) by (nonlinear_arith)
                requires dilation * (size - 1) + 1 <= extent;
        }
        let mut elements: Vec<Element> = Vec::new();
        let adding = &add;
        let mut block: usize = 0;
        while block < outer
            invariant
                source == self.shape_spec(),
                count == windows,
                windows == source[axis as int],
                size == source[axis + 1],
                width == suffix_product(source, axis + 2),
                inner == width,
                width > 0,
                outer == blocks,
                size > 0,
                step > 0,
                (size - 1) * dilation <= usize::MAX,
                self.elements().len() == blocks * windows * size * width,
                blocks * extent * width <= usize::MAX,
                forall|a: Element, b: Element| #[trigger] adding.requires((&a, &b)),
                *adding == add,
                block <= blocks,
                elements@.len() == block * extent * width,
                forall|o: int, q: int, i: int| 0 <= o < block && 0 <= q < extent && 0 <= i < width
                    ==> #[trigger] folded_by(
                        add,
                        zero,
                        folded_reads(self.elements(), windows, size as nat, width, o, q, i, step as nat, dilation as nat, size as nat),
                        block_entry(elements@, extent as nat, width, o, q, i),
                    ),
            decreases blocks - block,
        {
            proof {
                assert((block + 1) * windows * size * width <= blocks * windows * size * width) by (nonlinear_arith)
                    requires block < blocks;
            }
            let ghost done = elements@;
            let mut along: usize = 0;
            while along < extent
                invariant
                    count == windows,
                    inner == width,
                    width > 0,
                    size > 0,
                    step > 0,
                    (size - 1) * dilation <= usize::MAX,
                    self.elements().len() == blocks * windows * size * width,
                    (block + 1) * windows * size * width <= self.elements().len(),
                    blocks * extent * width <= usize::MAX,
                    forall|a: Element, b: Element| #[trigger] adding.requires((&a, &b)),
                    *adding == add,
                    block < blocks,
                    done.len() == block * extent * width,
                    along <= extent,
                    elements@.len() == (block * extent + along) * width,
                    elements@.subrange(0, done.len() as int) == done,
                    forall|q: int, i: int| 0 <= q < along && 0 <= i < width
                        ==> #[trigger] folded_by(
                            add,
                            zero,
                            folded_reads(self.elements(), windows, size as nat, width, block as int, q, i, step as nat, dilation as nat, size as nat),
                            block_entry(elements@, extent as nat, width, block as int, q, i),
                        ),
                decreases extent - along,
            {
                let ghost row = elements@;
                self.push_folded_run(&mut elements, count, size, inner, step, dilation, block, along, zero, adding);
                proof {
                    let base = (block * extent + along) * width;
                    assert((block * extent + along) * width + width == (block * extent + along + 1) * width) by (nonlinear_arith);
                    assert forall|q: int, i: int| 0 <= q < along + 1 && 0 <= i < width
                        implies #[trigger] folded_by(
                            add,
                            zero,
                            folded_reads(self.elements(), windows, size as nat, width, block as int, q, i, step as nat, dilation as nat, size as nat),
                            block_entry(elements@, extent as nat, width, block as int, q, i),
                        ) by {
                        if q < along {
                            assert((block * extent + q) * width + i < base) by (nonlinear_arith)
                                requires q < along, i < width, base == (block * extent + along) * width;
                            assert(elements@.subrange(0, row.len() as int)[(block * extent + q) * width + i]
                                == elements@[(block * extent + q) * width + i]);
                            assert(block_entry(row, extent as nat, width, block as int, q, i)
                                == block_entry(elements@, extent as nat, width, block as int, q, i));
                        } else {
                            assert((block * extent + q) * width + i == base + i);
                        }
                    }
                    assert(done.len() <= row.len()) by (nonlinear_arith)
                        requires done.len() == block * extent * width, row.len() == (block * extent + along) * width, along >= 0,
                            width >= 0;
                    assert(elements@.subrange(0, done.len() as int) =~= done) by {
                        assert forall|j: int| 0 <= j < done.len() implies #[trigger] elements@[j] == done[j] by {
                            assert(elements@.subrange(0, row.len() as int)[j] == elements@[j]);
                            assert(row.subrange(0, done.len() as int)[j] == row[j]);
                        }
                    }
                }
                along = along + 1;
            }
            proof {
                assert(done.len() <= elements@.len()) by (nonlinear_arith)
                    requires done.len() == block * extent * width,
                        elements@.len() == (block * extent + extent) * width, width >= 0, extent >= 0;
                assert forall|o: int, q: int, i: int| 0 <= o < block + 1 && 0 <= q < extent && 0 <= i < width
                    implies #[trigger] folded_by(
                        add,
                        zero,
                        folded_reads(self.elements(), windows, size as nat, width, o, q, i, step as nat, dilation as nat, size as nat),
                        block_entry(elements@, extent as nat, width, o, q, i),
                    ) by {
                    if o < block {
                        assert((o * extent + q) * width + i < block * extent * width) by (nonlinear_arith)
                            requires o < block, q < extent, i < width;
                        assert(elements@.subrange(0, done.len() as int)[(o * extent + q) * width + i]
                            == elements@[(o * extent + q) * width + i]);
                        assert(block_entry(done, extent as nat, width, o, q, i)
                            == block_entry(elements@, extent as nat, width, o, q, i));
                    }
                }
                assert((block + 1) * extent * width == (block * extent + extent) * width) by (nonlinear_arith);
            }
            block = block + 1;
        }
        let mut extents = vstd::slice::slice_to_vec(axes);
        extents.remove(axis + 1);
        extents.set(axis, extent);
        let folded_shape = Shape::new(extents);
        proof {
            assert(folded_shape@ == target);
            lemma_positive_extents(source, 0);
            assert(blocks > 0) by {
                assert(blocks * (windows * (size * width)) == volume_of(source));
                if blocks == 0 {
                    assert(blocks * (windows * (size * width)) == 0) by (nonlinear_arith)
                        requires blocks == 0;
                }
            }
            assert(extent > 0);
            assert(blocks * extent * width > 0) by (nonlinear_arith)
                requires blocks > 0, extent > 0, width > 0;
        }
        Self::dense(folded_shape, elements)
    }
}


/// The gradient elements that scatter onto row `target` at `offset`,
/// among the first `count` selected rows, in selection order: row
/// `source` of the gradient lands on row `indices[source]`.
pub open spec fn scattered_reads<Element>(
    elements: Seq<Element>,
    indices: Seq<usize>,
    width: nat,
    target: int,
    offset: int,
    count: nat,
) -> Seq<Element>
    decreases count,
{
    if count == 0 {
        Seq::empty()
    } else {
        let source = count - 1;
        let earlier = scattered_reads(elements, indices, width, target, offset, source as nat);
        if indices[source] as int == target {
            earlier.push(elements[source * width + offset])
        } else {
            earlier
        }
    }
}

/// How many selected rows have scattered onto `(t, o)` partway through
/// row `source`: the rows before it, and row `source` itself where it
/// lands on row `target` before `offset`.
pub open spec fn scatter_progress(t: int, o: int, target: int, offset: int, source: nat) -> nat {
    if t == target && o < offset {
        source + 1
    } else {
        source
    }
}

impl<Element: Copy> Tensor<Element> {
    /// Scatter-adds the rows of `self`, a `[count, ...]` gradient, into a
    /// payload holding one row per entry of `selection`'s vocabulary, by
    /// its indices: the adjoint of [`gather`](Self::gather). Every row
    /// starts at `zero`, and rows selected more than once accumulate with
    /// `add` in selection order.
    #[verifier::spinoff_prover]
    pub fn scatter<F: Fn(&Element, &Element) -> Element>(&self, selection: &Self, zero: Element, add: F) -> (rows: Tensor<Element>)
        requires
            selection.selection_spec() is Some,
            self.shape_spec().len() >= 1,
            self.shape_spec()[0] == selection.shape_spec()[0],
            fits(self.shape_spec().update(0, selection.shape_spec()[1])),
            forall|a: Element, b: Element| #[trigger] add.requires((&a, &b)),
        ensures
            rows.shape_spec() == self.shape_spec().update(0, selection.shape_spec()[1]),
            rows.elements().len() == selection.shape_spec()[1] * suffix_product(self.shape_spec(), 1),
            forall|target: int, offset: int|
                0 <= target < selection.shape_spec()[1] && 0 <= offset < suffix_product(self.shape_spec(), 1)
                    ==> #[trigger] folded_by(
                        add,
                        zero,
                        scattered_reads(
                            self.elements(),
                            selection.selection_spec()->0,
                            suffix_product(self.shape_spec(), 1),
                            target,
                            offset,
                            selection.shape_spec()[0] as nat,
                        ),
                        entry(rows.elements(), suffix_product(self.shape_spec(), 1), target, offset),
                    ),
    {
        proof {
            use_type_invariant(self);
            use_type_invariant(selection);
            self.lemma_coherent();
        }
        let gradient = self.shape();
        let indices = selection.selection_indices();
        let vocabulary = selection.shape().extent(1);
        let row_size = suffix_volume(gradient.axes(), 1);
        let ghost width = row_size as nat;
        let ghost count = indices@.len();
        let ghost vocab = vocabulary as nat;
        let ghost target_shape = gradient@.update(0, vocabulary);
        proof {
            lemma_volume_split(gradient@, 1);
            lemma_volume_split(target_shape, 1);
            lemma_suffix_same_tail(target_shape, gradient@, 1);
            crate::shape::lemma_suffix_product_positive(gradient@, 1);
            crate::shape::lemma_prefix_first(gradient@);
            crate::shape::lemma_prefix_first(target_shape);
            assert(suffix_product(gradient@, 0) <= usize::MAX);
            assert(suffix_product(target_shape, 0) <= usize::MAX);
        }
        let volume = vocabulary * row_size;
        let mut totals: Vec<Element> = Vec::new();
        push_fill(&mut totals, zero, volume);
        proof {
            assert forall|t: int, o: int| 0 <= t < vocab && 0 <= o < width implies #[trigger] folded_by(
                add,
                zero,
                scattered_reads(self.elements(), indices@, width, t, o, 0),
                entry(totals@, width, t, o),
            ) by {
                assert(t * width + o < vocab * width) by (nonlinear_arith)
                    requires t < vocab, o < width;
                assert(chained(add, zero, Seq::<Element>::empty(), seq![zero]));
            }
        }
        let adding = &add;
        let mut source: usize = 0;
        while source < indices.len()
            invariant
                Some(indices@) == selection.selection_spec(),
                count == indices@.len(),
                forall|r: int| 0 <= r < count ==> #[trigger] indices@[r] < vocab,
                self.shape_spec() == gradient@,
                gradient@[0] == count,
                row_size == width,
                width == suffix_product(gradient@, 1),
                self.elements().len() == count * width,
                count * width <= usize::MAX,
                totals@.len() == vocab * width,
                vocab * width <= usize::MAX,
                forall|a: Element, b: Element| #[trigger] adding.requires((&a, &b)),
                *adding == add,
                source <= count,
                forall|t: int, o: int| 0 <= t < vocab && 0 <= o < width ==> #[trigger] folded_by(
                    add,
                    zero,
                    scattered_reads(self.elements(), indices@, width, t, o, source as nat),
                    entry(totals@, width, t, o),
                ),
            decreases count - source,
        {
            let target = indices[source];
            let mut offset: usize = 0;
            while offset < row_size
                invariant
                    Some(indices@) == selection.selection_spec(),
                    count == indices@.len(),
                    source < count,
                    target == indices@[source as int],
                    target < vocab,
                    row_size == width,
                    self.elements().len() == count * width,
                    count * width <= usize::MAX,
                    totals@.len() == vocab * width,
                    vocab * width <= usize::MAX,
                    forall|a: Element, b: Element| #[trigger] adding.requires((&a, &b)),
                    *adding == add,
                    offset <= width,
                    forall|t: int, o: int| 0 <= t < vocab && 0 <= o < width ==> #[trigger] folded_by(
                        add,
                        zero,
                        scattered_reads(
                            self.elements(),
                            indices@,
                            width,
                            t,
                            o,
                            scatter_progress(t, o, target as int, offset as int, source as nat),
                        ),
                        entry(totals@, width, t, o),
                    ),
                decreases width - offset,
            {
                proof {
                    assert(target * width + offset < vocab * width) by (nonlinear_arith)
                        requires target < vocab, offset < width;
                    assert(source * width + offset < count * width) by (nonlinear_arith)
                        requires source < count, offset < width;
                }
                let position = target * row_size + offset;
                let next = *self.get(source * row_size + offset);
                let combined = adding(&totals[position], &next);
                let ghost before = totals@;
                totals.set(position, combined);
                proof {
                    let reads = scattered_reads(self.elements(), indices@, width, target as int, offset as int, source as nat);
                    assert(scatter_progress(target as int, offset as int, target as int, offset as int, source as nat) == source);
                    assert(folded_by(
                        add,
                        zero,
                        scattered_reads(
                            self.elements(),
                            indices@,
                            width,
                            target as int,
                            offset as int,
                            scatter_progress(target as int, offset as int, target as int, offset as int, source as nat),
                        ),
                        entry(before, width, target as int, offset as int),
                    ));
                    assert(entry(before, width, target as int, offset as int) == before[position as int]);
                    let partials = choose|partials: Seq<Element>| #[trigger] chained(add, zero, reads, partials)
                        && partials.last() == before[position as int];
                    assert(chained(add, zero, reads.push(next), partials.push(combined)));
                    assert(scattered_reads(self.elements(), indices@, width, target as int, offset as int, (source + 1) as nat)
                        == reads.push(next));
                    assert forall|t: int, o: int| 0 <= t < vocab && 0 <= o < width implies #[trigger] folded_by(
                        add,
                        zero,
                        scattered_reads(
                            self.elements(),
                            indices@,
                            width,
                            t,
                            o,
                            scatter_progress(t, o, target as int, offset + 1, source as nat),
                        ),
                        entry(totals@, width, t, o),
                    ) by {
                        if t == target && o == offset {
                            assert(scatter_progress(t, o, target as int, offset + 1, source as nat) == source + 1);
                            assert(entry(totals@, width, t, o) == combined);
                            assert(partials.push(combined).last() == combined);
                        } else {
                            let n = scatter_progress(t, o, target as int, offset as int, source as nat);
                            assert(scatter_progress(t, o, target as int, offset + 1, source as nat) == n);
                            assert(folded_by(add, zero, scattered_reads(self.elements(), indices@, width, t, o, n), entry(before, width, t, o)));
                            assert(t * width + o != position as int) by {
                                if t * width + o == position as int {
                                    vstd::arithmetic::div_mod::lemma_fundamental_div_mod_converse(
                                        position as int, width as int, t, o);
                                    vstd::arithmetic::div_mod::lemma_fundamental_div_mod_converse(
                                        position as int, width as int, target as int, offset as int);
                                }
                            }
                            assert(0 <= t * width + o < vocab * width) by (nonlinear_arith)
                                requires 0 <= t < vocab, 0 <= o < width;
                            assert(totals@[t * width + o] == before[t * width + o]);
                            assert(entry(totals@, width, t, o) == entry(before, width, t, o));
                        }
                    }
                }
                offset = offset + 1;
            }
            proof {
                assert forall|t: int, o: int| 0 <= t < vocab && 0 <= o < width implies #[trigger] folded_by(
                    add,
                    zero,
                    scattered_reads(self.elements(), indices@, width, t, o, (source + 1) as nat),
                    entry(totals@, width, t, o),
                ) by {
                    let n = scatter_progress(t, o, target as int, offset as int, source as nat);
                    assert(folded_by(add, zero, scattered_reads(self.elements(), indices@, width, t, o, n), entry(totals@, width, t, o)));
                    if t != target {
                        assert(n == source);
                        assert(indices@[source as int] as int != t);
                        assert(scattered_reads(self.elements(), indices@, width, t, o, (source + 1) as nat)
                            == scattered_reads(self.elements(), indices@, width, t, o, source as nat));
                    } else {
                        assert(n == source + 1);
                    }
                }
            }
            let ghost scattered_rows = (source + 1) as nat;
            source = source + 1;
            assert(scattered_rows == source as nat);
        }
        let mut extents = vstd::slice::slice_to_vec(gradient.axes());
        extents.set(0, vocabulary);
        let scattered = Shape::new(extents);
        proof {
            assert(scattered@ == target_shape);
            assert(vocab > 0 && width > 0);
            assert(vocab * width > 0) by (nonlinear_arith)
                requires vocab > 0, width > 0;
        }
        Self::dense(scattered, totals)
    }
}


/// Whether `products` holds `multiply` of `left` and `right`, pairwise.
pub open spec fn products_of<Element, M: Fn(&Element, &Element) -> Element>(
    multiply: M,
    left: Seq<Element>,
    right: Seq<Element>,
    products: Seq<Element>,
) -> bool {
    &&& products.len() == left.len()
    &&& forall|j: int| 0 <= j < left.len() ==> multiply.ensures((&left[j], &right[j]), #[trigger] products[j])
}

/// Whether `result` is the pairwise products by `multiply` of `left` and
/// `right`, summed by `add` left to right from the first product.
pub open spec fn dotted_by<Element, M: Fn(&Element, &Element) -> Element, A: Fn(&Element, &Element) -> Element>(
    multiply: M,
    add: A,
    left: Seq<Element>,
    right: Seq<Element>,
    result: Element,
) -> bool {
    exists|products: Seq<Element>| #[trigger] products_of(multiply, left, right, products)
        && folded_by(add, products[0], products.drop_first(), result)
}

/// The row `row` of batch `batch` of the `[.., rows, inner]` matrices
/// `elements`.
pub open spec fn matrix_row<Element>(elements: Seq<Element>, rows: nat, inner: nat, batch: int, row: int) -> Seq<Element> {
    Seq::new(inner, |step: int| elements[(batch * rows + row) * inner + step])
}

/// The column `column` of batch `batch` of the `[.., inner, columns]`
/// matrices `elements`.
pub open spec fn matrix_column<Element>(elements: Seq<Element>, inner: nat, columns: nat, batch: int, column: int) -> Seq<Element> {
    Seq::new(inner, |step: int| elements[(batch * inner + step) * columns + column])
}

/// The shape of a batched matrix product: the left operand's batch axes
/// and rows, and the right operand's columns.
pub open spec fn product_axes(left: Seq<usize>, right: Seq<usize>) -> Seq<usize> {
    left.update(left.len() - 1, right[right.len() - 1])
}

impl<Element: Copy> Tensor<Element> {
    /// Sums by `add` the products by `multiply` of the `count` elements of
    /// `self` from `left_first`, `left_gap` apart, with those of `rhs`
    /// from `right_first`, `right_gap` apart.
    fn dot_strided<M: Fn(&Element, &Element) -> Element, A: Fn(&Element, &Element) -> Element>(
        &self,
        rhs: &Self,
        left_first: usize,
        left_gap: usize,
        right_first: usize,
        right_gap: usize,
        count: usize,
        multiply: &M,
        accumulate: &A,
    ) -> (total: Element)
        requires
            count >= 1,
            left_first + (count - 1) * left_gap < self.elements().len(),
            right_first + (count - 1) * right_gap < rhs.elements().len(),
            forall|a: Element, b: Element| #[trigger] multiply.requires((&a, &b)),
            forall|a: Element, b: Element| #[trigger] accumulate.requires((&a, &b)),
        ensures
            dotted_by(
                *multiply,
                *accumulate,
                Seq::new(count as nat, |j: int| self.elements()[left_first + j * left_gap]),
                Seq::new(count as nat, |j: int| rhs.elements()[right_first + j * right_gap]),
                total,
            ),
    {
        proof {
            use_type_invariant(self);
            self.lemma_coherent();
            use_type_invariant(rhs);
            rhs.lemma_coherent();
        }
        let ghost left = Seq::new(count as nat, |j: int| self.elements()[left_first + j * left_gap]);
        let ghost right = Seq::new(count as nat, |j: int| rhs.elements()[right_first + j * right_gap]);
        let first = multiply(self.get(left_first), rhs.get(right_first));
        let mut total = first;
        let ghost mut products = seq![first];
        let ghost mut partials = seq![first];
        let mut taken: usize = 1;
        while taken < count
            invariant
                1 <= taken <= count,
                left_first + (count - 1) * left_gap < self.elements().len(),
                right_first + (count - 1) * right_gap < rhs.elements().len(),
                self.elements().len() <= usize::MAX,
                rhs.elements().len() <= usize::MAX,
                forall|a: Element, b: Element| #[trigger] multiply.requires((&a, &b)),
                forall|a: Element, b: Element| #[trigger] accumulate.requires((&a, &b)),
                left == Seq::new(count as nat, |j: int| self.elements()[left_first + j * left_gap]),
                right == Seq::new(count as nat, |j: int| rhs.elements()[right_first + j * right_gap]),
                products_of(*multiply, left.take(taken as int), right.take(taken as int), products),
                products[0] == first,
                chained(*accumulate, first, products.drop_first(), partials),
                partials.last() == total,
            decreases count - taken,
        {
            proof {
                assert(taken * left_gap <= (count - 1) * left_gap) by (nonlinear_arith)
                    requires taken <= count - 1;
                assert(taken * right_gap <= (count - 1) * right_gap) by (nonlinear_arith)
                    requires taken <= count - 1;
            }
            let product = multiply(self.get(left_first + taken * left_gap), rhs.get(right_first + taken * right_gap));
            let combined = accumulate(&total, &product);
            proof {
                let more = products.push(product);
                assert(left.take(taken + 1) == left.take(taken as int).push(left[taken as int]));
                assert(right.take(taken + 1) == right.take(taken as int).push(right[taken as int]));
                assert(products_of(*multiply, left.take(taken + 1), right.take(taken + 1), more));
                assert(more.drop_first() == products.drop_first().push(product));
                assert(chained(*accumulate, first, more.drop_first(), partials.push(combined)));
                products = more;
                partials = partials.push(combined);
            }
            total = combined;
            taken = taken + 1;
        }
        proof {
            assert(left.take(count as int) == left);
            assert(right.take(count as int) == right);
            assert(products_of(*multiply, left, right, products));
        }
        total
    }

    /// Returns the batched matrix product of `self` and `rhs`: over the
    /// shared leading batch axes, each `[rows, inner]` matrix of `self`
    /// times the `[inner, columns]` matrix of `rhs`. Every output element
    /// sums by `add`, left to right, the products by `multiply` along the
    /// inner dimension.
    #[verifier::spinoff_prover]
    pub fn matmul<M: Fn(&Element, &Element) -> Element, A: Fn(&Element, &Element) -> Element>(
        &self,
        rhs: &Self,
        multiply: M,
        add: A,
    ) -> (product: Tensor<Element>)
        requires
            self.shape_spec().len() >= 2,
            rhs.shape_spec().len() == self.shape_spec().len(),
            rhs.shape_spec().take(self.shape_spec().len() - 2) == self.shape_spec().take(self.shape_spec().len() - 2),
            rhs.shape_spec()[self.shape_spec().len() - 2] == self.shape_spec()[self.shape_spec().len() - 1],
            fits(product_axes(self.shape_spec(), rhs.shape_spec())),
            forall|a: Element, b: Element| #[trigger] multiply.requires((&a, &b)),
            forall|a: Element, b: Element| #[trigger] add.requires((&a, &b)),
        ensures
            ({
                let split = self.shape_spec().len() - 2;
                let batches = prefix_product(self.shape_spec(), split);
                let rows = self.shape_spec()[split] as nat;
                let inner = self.shape_spec()[split + 1] as nat;
                let columns = rhs.shape_spec()[split + 1] as nat;
                &&& product.shape_spec() == product_axes(self.shape_spec(), rhs.shape_spec())
                &&& product.elements().len() == batches * rows * columns
                &&& forall|batch: int, row: int, column: int|
                    0 <= batch < batches && 0 <= row < rows && 0 <= column < columns
                        ==> #[trigger] dotted_by(
                            multiply,
                            add,
                            matrix_row(self.elements(), rows, inner, batch, row),
                            matrix_column(rhs.elements(), inner, columns, batch, column),
                            block_entry(product.elements(), rows, columns, batch, row, column),
                        )
            }),
    {
        proof {
            use_type_invariant(self);
            self.lemma_coherent();
            use_type_invariant(rhs);
            rhs.lemma_coherent();
        }
        let left_shape = self.shape();
        let right_shape = rhs.shape();
        let left_axes = left_shape.axes();
        let right_axes = right_shape.axes();
        let split = left_axes.len() - 2;
        let rows = left_axes[split];
        let inner = left_axes[split + 1];
        let columns = right_axes[split + 1];
        let batches = prefix_volume(left_axes, split);
        let ghost left = left_shape@;
        let ghost right = right_shape@;
        let ghost target = product_axes(left, right);
        let ghost height = rows as nat;
        let ghost depth = inner as nat;
        let ghost width = columns as nat;
        let ghost count = batches as nat;
        proof {
            lemma_volume_split(left, split as int);
            lemma_volume_split(right, split as int);
            lemma_volume_split(target, split as int);
            assert forall|j: int| 0 <= j < split implies #[trigger] left[j] == right[j] by {
                assert(left.take(split as int)[j] == right.take(split as int)[j]);
            }
            lemma_prefix_same_head(left, right, split as int);
            lemma_prefix_same_head(left, target, split as int);
            assert(suffix_product(left, split + 2) == 1);
            assert(suffix_product(right, split + 2) == 1);
            assert(suffix_product(target, split + 2) == 1);
            assert(suffix_product(left, split + 1) == depth * 1);
            assert(suffix_product(right, split + 1) == width * 1);
            assert(suffix_product(target, split + 1) == width * 1);
            assert(suffix_product(left, split as int) == height * (depth * 1));
            assert(suffix_product(right, split as int) == depth * (width * 1));
            assert(suffix_product(target, split as int) == height * (width * 1));
            assert(count * (height * (depth * 1)) == count * height * depth) by (nonlinear_arith);
            assert(count * (depth * (width * 1)) == count * depth * width) by (nonlinear_arith);
            assert(count * (height * (width * 1)) == count * height * width) by (nonlinear_arith);
            assert(suffix_product(left, 0) <= usize::MAX);
            assert(suffix_product(right, 0) <= usize::MAX);
            assert(suffix_product(target, 0) <= usize::MAX);
            lemma_positive_extents(left, 0);
            lemma_positive_extents(right, 0);
            assert(height > 0 && depth > 0 && width > 0);
        }
        let multiplying = &multiply;
        let adding = &add;
        let mut elements: Vec<Element> = Vec::new();
        let mut batch: usize = 0;
        while batch < batches
            invariant
                count == batches,
                height == rows,
                depth == inner,
                width == columns,
                height > 0,
                depth > 0,
                width > 0,
                self.elements().len() == count * height * depth,
                rhs.elements().len() == count * depth * width,
                count * height * width <= usize::MAX,
                count * height * depth <= usize::MAX,
                count * depth * width <= usize::MAX,
                forall|a: Element, b: Element| #[trigger] multiplying.requires((&a, &b)),
                forall|a: Element, b: Element| #[trigger] adding.requires((&a, &b)),
                *multiplying == multiply,
                *adding == add,
                batch <= count,
                elements@.len() == batch * height * width,
                forall|b: int, r: int, c: int| 0 <= b < batch && 0 <= r < height && 0 <= c < width
                    ==> #[trigger] dotted_by(
                        multiply,
                        add,
                        matrix_row(self.elements(), height, depth, b, r),
                        matrix_column(rhs.elements(), depth, width, b, c),
                        block_entry(elements@, height, width, b, r, c),
                    ),
            decreases count - batch,
        {
            let ghost done = elements@;
            let mut row: usize = 0;
            while row < rows
                invariant
                    count == batches,
                    height == rows,
                    depth == inner,
                    width == columns,
                    height > 0,
                    depth > 0,
                    width > 0,
                    self.elements().len() == count * height * depth,
                    rhs.elements().len() == count * depth * width,
                    count * height * width <= usize::MAX,
                    count * height * depth <= usize::MAX,
                    count * depth * width <= usize::MAX,
                    forall|a: Element, b: Element| #[trigger] multiplying.requires((&a, &b)),
                    forall|a: Element, b: Element| #[trigger] adding.requires((&a, &b)),
                    *multiplying == multiply,
                    *adding == add,
                    batch < count,
                    done.len() == batch * height * width,
                    row <= height,
                    elements@.len() == (batch * height + row) * width,
                    elements@.subrange(0, done.len() as int) == done,
                    forall|r: int, c: int| 0 <= r < row && 0 <= c < width
                        ==> #[trigger] dotted_by(
                            multiply,
                            add,
                            matrix_row(self.elements(), height, depth, batch as int, r),
                            matrix_column(rhs.elements(), depth, width, batch as int, c),
                            block_entry(elements@, height, width, batch as int, r, c),
                        ),
                decreases height - row,
            {
                let ghost before = elements@;
                proof {
                    assert((batch * height + row) * depth + (depth - 1) < count * height * depth) by (nonlinear_arith)
                        requires batch < count, row < height, depth >= 1;
                    assert(batch * height + row < count * height) by (nonlinear_arith)
                        requires batch < count, row < height;
                    assert(count * height <= count * height * depth) by (nonlinear_arith)
                        requires depth >= 1;
                    assert((batch * height + row) * depth <= (batch * height + row) * depth + (depth - 1));
                    assert(batch * depth * width + (depth - 1) * width + (width - 1) < count * depth * width) by (nonlinear_arith)
                        requires batch < count, depth >= 1, width >= 1;
                    assert(batch * depth <= batch * depth * width) by (nonlinear_arith)
                        requires width >= 1;
                    assert(batch * depth * width <= count * depth * width) by (nonlinear_arith)
                        requires batch < count;
                    assert((batch * height + row + 1) * width <= count * height * width) by (nonlinear_arith)
                        requires batch < count, row < height;
                }
                let mut column: usize = 0;
                while column < columns
                    invariant
                        height == rows,
                        depth == inner,
                        width == columns,
                        depth > 0,
                        width > 0,
                        batch < count,
                        row < height,
                        self.elements().len() == count * height * depth,
                        rhs.elements().len() == count * depth * width,
                        (batch * height + row) * depth + (depth - 1) < count * height * depth,
                        batch * depth * width + (depth - 1) * width + (width - 1) < count * depth * width,
                        (batch * height + row + 1) * width <= count * height * width,
                        count * height * width <= usize::MAX,
                        count * height * depth <= usize::MAX,
                        count * depth * width <= usize::MAX,
                        forall|a: Element, b: Element| #[trigger] multiplying.requires((&a, &b)),
                        forall|a: Element, b: Element| #[trigger] adding.requires((&a, &b)),
                        *multiplying == multiply,
                        *adding == add,
                        column <= width,
                        before.len() == (batch * height + row) * width,
                        elements@.len() == before.len() + column,
                        elements@.subrange(0, before.len() as int) == before,
                        forall|c: int| 0 <= c < column
                            ==> #[trigger] dotted_by(
                                multiply,
                                add,
                                matrix_row(self.elements(), height, depth, batch as int, row as int),
                                matrix_column(rhs.elements(), depth, width, batch as int, c),
                                elements@[before.len() + c],
                            ),
                    decreases width - column,
                {
                    let ghost left_first = ((batch * height + row) * depth) as int;
                    let ghost right_first = (batch * depth * width + column) as int;
                    proof {
                        assert(right_first + (depth - 1) * width < count * depth * width);
                        assert(batch * height + row <= (batch * height + row) * depth) by (nonlinear_arith)
                            requires depth >= 1;
                        assert(batch * height <= batch * height + row);
                        assert(batch * depth <= batch * depth * width) by (nonlinear_arith)
                            requires width >= 1;
                        assert(batch * depth * width <= right_first);
                    }
                    let total = self.dot_strided(
                        rhs,
                        (batch * rows + row) * inner,
                        1,
                        batch * inner * columns + column,
                        columns,
                        inner,
                        multiplying,
                        adding,
                    );
                    proof {
                        let strip = Seq::new(depth, |j: int| self.elements()[left_first + j * 1]);
                        let line = Seq::new(depth, |j: int| rhs.elements()[right_first + j * (width as int)]);
                        assert(strip =~= matrix_row(self.elements(), height, depth, batch as int, row as int));
                        assert forall|j: int| 0 <= j < depth implies #[trigger] line[j]
                            == matrix_column(rhs.elements(), depth, width, batch as int, column as int)[j] by {
                            assert((batch * depth + j) * width + column == right_first + j * width) by (nonlinear_arith)
                                requires right_first == batch * depth * width + column;
                        }
                        assert(line =~= matrix_column(rhs.elements(), depth, width, batch as int, column as int));
                    }
                    let ghost grown = elements@;
                    elements.push(total);
                    proof {
                        assert(elements@.subrange(0, before.len() as int) =~= before) by {
                            assert(grown.subrange(0, before.len() as int) == before);
                        }
                        assert forall|c: int| 0 <= c < column + 1
                            implies #[trigger] dotted_by(
                                multiply,
                                add,
                                matrix_row(self.elements(), height, depth, batch as int, row as int),
                                matrix_column(rhs.elements(), depth, width, batch as int, c),
                                elements@[before.len() + c],
                            ) by {
                            if c < column {
                                assert(elements@[before.len() + c] == grown[before.len() + c]);
                            }
                        }
                    }
                    column = column + 1;
                }
                proof {
                    let base = before.len();
                    assert(base + width == (batch * height + row + 1) * width) by (nonlinear_arith)
                        requires base == (batch * height + row) * width;
                    assert forall|r: int, c: int| 0 <= r < row + 1 && 0 <= c < width
                        implies #[trigger] dotted_by(
                            multiply,
                            add,
                            matrix_row(self.elements(), height, depth, batch as int, r),
                            matrix_column(rhs.elements(), depth, width, batch as int, c),
                            block_entry(elements@, height, width, batch as int, r, c),
                        ) by {
                        if r < row {
                            assert((batch * height + r) * width + c < base) by (nonlinear_arith)
                                requires r < row, c < width, base == (batch * height + row) * width;
                            assert(elements@.subrange(0, base as int)[(batch * height + r) * width + c]
                                == elements@[(batch * height + r) * width + c]);
                            assert(block_entry(before, height, width, batch as int, r, c)
                                == block_entry(elements@, height, width, batch as int, r, c));
                        } else {
                            assert((batch * height + r) * width + c == base + c);
                        }
                    }
                    assert(done.len() <= before.len()) by (nonlinear_arith)
                        requires done.len() == batch * height * width, before.len() == (batch * height + row) * width, row >= 0,
                            width >= 0;
                    assert(elements@.subrange(0, done.len() as int) =~= done) by {
                        assert forall|j: int| 0 <= j < done.len() implies #[trigger] elements@[j] == done[j] by {
                            assert(elements@.subrange(0, before.len() as int)[j] == elements@[j]);
                            assert(before.subrange(0, done.len() as int)[j] == before[j]);
                        }
                    }
                }
                row = row + 1;
            }
            proof {
                assert(done.len() <= elements@.len()) by (nonlinear_arith)
                    requires done.len() == batch * height * width,
                        elements@.len() == (batch * height + height) * width, width >= 0, height >= 0;
                assert forall|b: int, r: int, c: int| 0 <= b < batch + 1 && 0 <= r < height && 0 <= c < width
                    implies #[trigger] dotted_by(
                        multiply,
                        add,
                        matrix_row(self.elements(), height, depth, b, r),
                        matrix_column(rhs.elements(), depth, width, b, c),
                        block_entry(elements@, height, width, b, r, c),
                    ) by {
                    if b < batch {
                        assert((b * height + r) * width + c < batch * height * width) by (nonlinear_arith)
                            requires b < batch, r < height, c < width;
                        assert(elements@.subrange(0, done.len() as int)[(b * height + r) * width + c]
                            == elements@[(b * height + r) * width + c]);
                        assert(block_entry(done, height, width, b, r, c) == block_entry(elements@, height, width, b, r, c));
                    }
                }
                assert((batch + 1) * height * width == (batch * height + height) * width) by (nonlinear_arith);
            }
            batch = batch + 1;
        }
        let mut extents = vstd::slice::slice_to_vec(left_axes);
        extents.set(split + 1, columns);
        let product_shape = Shape::new(extents);
        proof {
            assert(product_shape@ == target);
            assert(count > 0) by {
                assert(count * (height * (depth * 1)) == volume_of(left));
                if count == 0 {
                    assert(count * (height * (depth * 1)) == 0) by (nonlinear_arith)
                        requires count == 0;
                }
            }
            assert(count * height * width > 0) by (nonlinear_arith)
                requires count > 0, height > 0, width > 0;
        }
        Self::dense(product_shape, elements)
    }
}


/// The number of kernel positions along a padded extent: one every
/// `stride` steps while the kernel fits.
pub open spec fn out_extent(extent: nat, kernel: nat, stride: nat, padding: nat) -> nat {
    ((extent + 2 * padding - kernel) / (stride as int) + 1) as nat
}

/// The padded image pixel at `(image, channel, y, x)` of the
/// `[batch, channels, height, width]` elements, where `y` and `x` count
/// from the padded corner: the pixel `padding` steps in along each axis,
/// or `zero` in the padding.
pub open spec fn padded_pixel<Element>(
    elements: Seq<Element>,
    channels: nat,
    height: nat,
    width: nat,
    padding: nat,
    zero: Element,
    image: int,
    channel: int,
    y: int,
    x: int,
) -> Element {
    if padding <= y < padding + height && padding <= x < padding + width {
        elements[((image * channels + channel) * height + (y - padding)) * width + (x - padding)]
    } else {
        zero
    }
}

/// The element at `row`, `column` of the im2col matrix: row
/// `(image, out_y, out_x)` and column `(channel, kernel_y, kernel_x)`,
/// each counted row-major, read the padded pixel
/// `(image, channel, out_y * stride + kernel_y, out_x * stride + kernel_x)`.
pub open spec fn patch_value<Element>(
    elements: Seq<Element>,
    channels: nat,
    height: nat,
    width: nat,
    kernel_height: nat,
    kernel_width: nat,
    out_height: nat,
    out_width: nat,
    stride: nat,
    padding: nat,
    zero: Element,
    row: int,
    column: int,
) -> Element {
    let image = (row / (out_width as int)) / (out_height as int);
    let out_y = (row / (out_width as int)) % (out_height as int);
    let out_x = row % (out_width as int);
    let channel = (column / (kernel_width as int)) / (kernel_height as int);
    let kernel_y = (column / (kernel_width as int)) % (kernel_height as int);
    let kernel_x = column % (kernel_width as int);
    padded_pixel(
        elements,
        channels,
        height,
        width,
        padding,
        zero,
        image,
        channel,
        out_y * stride + kernel_y,
        out_x * stride + kernel_x,
    )
}

/// The first `length` elements, in row-major order, of the im2col matrix
/// with `columns` columns whose entries are [`patch_value`].
pub open spec fn patch_matrix<Element>(
    elements: Seq<Element>,
    channels: nat,
    height: nat,
    width: nat,
    kernel_height: nat,
    kernel_width: nat,
    out_height: nat,
    out_width: nat,
    stride: nat,
    padding: nat,
    zero: Element,
    columns: nat,
    length: nat,
) -> Seq<Element> {
    Seq::new(
        length,
        |position: int| patch_value(
            elements,
            channels,
            height,
            width,
            kernel_height,
            kernel_width,
            out_height,
            out_width,
            stride,
            padding,
            zero,
            position / (columns as int),
            position % (columns as int),
        ),
    )
}

/// A quotient by `d` of a number below `bound * d` is below `bound`.
proof fn lemma_quotient_below(x: int, d: int, bound: int)
    requires
        0 <= x < bound * d,
        d > 0,
    ensures
        x / d < bound,
        0 <= x / d,
{
    vstd::arithmetic::div_mod::lemma_fundamental_div_mod(x, d);
    vstd::arithmetic::div_mod::lemma_mod_bound(x, d);
    vstd::arithmetic::div_mod::lemma_div_pos_is_pos(x, d);
    let q = x / d;
    assert(q < bound) by (nonlinear_arith)
        requires x == d * q + x % d, x % d >= 0, x < bound * d, d > 0;
}

/// A position `(high * middle_extent + middle) * low_extent + low` reads
/// back its three digits.
proof fn lemma_three_digits(high: int, middle: int, low: int, middle_extent: int, low_extent: int)
    requires
        0 <= high,
        0 <= middle < middle_extent,
        0 <= low < low_extent,
    ensures
        ((high * middle_extent + middle) * low_extent + low) % low_extent == low,
        (((high * middle_extent + middle) * low_extent + low) / low_extent) % middle_extent == middle,
        (((high * middle_extent + middle) * low_extent + low) / low_extent) / middle_extent == high,
{
    let position = (high * middle_extent + middle) * low_extent + low;
    vstd::arithmetic::div_mod::lemma_fundamental_div_mod_converse(position, low_extent, high * middle_extent + middle, low);
    vstd::arithmetic::div_mod::lemma_fundamental_div_mod_converse(high * middle_extent + middle, middle_extent, high, middle);
}

/// Appends the `kernel_width` padded pixels of one kernel row:
/// `(image, channel, y, x + kernel_x)` for every `kernel_x`.
fn push_patch_run<Element: Copy>(
    patches: &mut Vec<Element>,
    elements: &[Element],
    channels: usize,
    height: usize,
    width: usize,
    kernel_width: usize,
    padding: usize,
    zero: Element,
    image: usize,
    channel: usize,
    y: usize,
    x: usize,
)
    requires
        elements@.len() <= usize::MAX,
        (image * channels + channel + 1) * height * width <= elements@.len(),
        x + kernel_width <= usize::MAX,
        padding + width <= usize::MAX,
        padding + height <= usize::MAX,
    ensures
        final(patches)@ == old(patches)@ + Seq::new(
            kernel_width as nat,
            |kernel_x: int| padded_pixel(
                elements@,
                channels as nat,
                height as nat,
                width as nat,
                padding as nat,
                zero,
                image as int,
                channel as int,
                y as int,
                x + kernel_x,
            ),
        ),
{
    let ghost before = patches@;
    let ghost run = Seq::new(
        kernel_width as nat,
        |kernel_x: int| padded_pixel(
            elements@,
            channels as nat,
            height as nat,
            width as nat,
            padding as nat,
            zero,
            image as int,
            channel as int,
            y as int,
            x + kernel_x,
        ),
    );
    let mut kernel_x: usize = 0;
    while kernel_x < kernel_width
        invariant
            elements@.len() <= usize::MAX,
            (image * channels + channel + 1) * height * width <= elements@.len(),
            x + kernel_width <= usize::MAX,
            padding + width <= usize::MAX,
            padding + height <= usize::MAX,
            kernel_x <= kernel_width,
            run == Seq::new(
                kernel_width as nat,
                |kernel_x: int| padded_pixel(
                    elements@,
                    channels as nat,
                    height as nat,
                    width as nat,
                    padding as nat,
                    zero,
                    image as int,
                    channel as int,
                    y as int,
                    x + kernel_x,
                ),
            ),
            patches@ == before + run.take(kernel_x as int),
        decreases kernel_width - kernel_x,
    {
        let column = x + kernel_x;
        let pixel = if padding <= y && y < padding + height && padding <= column && column < padding + width {
            proof {
                let h = height as int;
                let w = width as int;
                let row_y = y - padding;
                let row_x = column - padding;
                let plane = image * channels + channel;
                assert(h >= 1 && w >= 1);
                assert(plane * h + row_y < (plane + 1) * h) by (nonlinear_arith)
                    requires row_y < h;
                assert((plane * h + row_y) * w + row_x < (plane * h + row_y + 1) * w) by (nonlinear_arith)
                    requires row_x < w;
                assert((plane * h + row_y + 1) * w <= (plane + 1) * h * w) by (nonlinear_arith)
                    requires plane * h + row_y + 1 <= (plane + 1) * h, w >= 1;
                assert(image * channels <= plane);
                assert(plane <= plane * h) by (nonlinear_arith)
                    requires h >= 1, plane >= 0;
                assert(plane * h + row_y <= (plane * h + row_y) * w) by (nonlinear_arith)
                    requires w >= 1, plane * h + row_y >= 0;
                assert(0 <= row_y && 0 <= row_x);
            }
            elements[((image * channels + channel) * height + (y - padding)) * width + (column - padding)]
        } else {
            zero
        };
        patches.push(pixel);
        kernel_x = kernel_x + 1;
        proof {
            assert(run[kernel_x - 1] == pixel);
            assert(patches@ =~= before + run.take(kernel_x as int));
        }
    }
    proof {
        assert(run.take(kernel_width as int) =~= run);
    }
}

impl<Element: Copy> Tensor<Element> {
    /// Returns the im2col matrix of the `[batch, channels, height, width]`
    /// tensor: one row per kernel position `(image, out_y, out_x)` of the
    /// `padding`-padded, `stride`-strided sliding kernel windows, one
    /// column per kernel element `(channel, kernel_y, kernel_x)`, and
    /// `zero` where the window leaves the image.
    #[verifier::spinoff_prover]
    pub fn windowed_patches(
        &self,
        kernel_height: usize,
        kernel_width: usize,
        stride: usize,
        padding: usize,
        zero: Element,
    ) -> (patches: Tensor<Element>)
        requires
            self.shape_spec().len() == 4,
            stride > 0,
            kernel_height > 0,
            kernel_width > 0,
            self.shape_spec()[2] + 2 * padding <= usize::MAX,
            self.shape_spec()[3] + 2 * padding <= usize::MAX,
            kernel_height <= self.shape_spec()[2] + 2 * padding,
            kernel_width <= self.shape_spec()[3] + 2 * padding,
            self.shape_spec()[0] * out_extent(self.shape_spec()[2] as nat, kernel_height as nat, stride as nat, padding as nat)
                * out_extent(self.shape_spec()[3] as nat, kernel_width as nat, stride as nat, padding as nat)
                * (self.shape_spec()[1] * kernel_height * kernel_width) <= usize::MAX,
        ensures
            ({
                let axes = self.shape_spec();
                let out_height = out_extent(axes[2] as nat, kernel_height as nat, stride as nat, padding as nat);
                let out_width = out_extent(axes[3] as nat, kernel_width as nat, stride as nat, padding as nat);
                let rows = axes[0] * out_height * out_width;
                let columns = axes[1] * kernel_height * kernel_width;
                &&& patches.shape_spec() == seq![rows as usize, columns as usize]
                &&& patches.elements() == patch_matrix(
                    self.elements(),
                    axes[1] as nat,
                    axes[2] as nat,
                    axes[3] as nat,
                    kernel_height as nat,
                    kernel_width as nat,
                    out_height,
                    out_width,
                    stride as nat,
                    padding as nat,
                    zero,
                    columns as nat,
                    (rows * columns) as nat,
                )
            }),
    {
        proof {
            use_type_invariant(self);
            self.lemma_coherent();
        }
        let elements = self.to_vec();
        let shape = self.shape();
        let axes = shape.axes();
        let batch = axes[0];
        let channels = axes[1];
        let height = axes[2];
        let width = axes[3];
        let out_height = (height + 2 * padding - kernel_height) / stride + 1;
        let out_width = (width + 2 * padding - kernel_width) / stride + 1;
        let ghost image_volume = channels * height * width;
        proof {
            let axes_spec = shape@;
            assert(suffix_product(axes_spec, 4) == 1);
            assert(suffix_product(axes_spec, 3) == width * 1);
            assert(suffix_product(axes_spec, 2) == height * (width * 1));
            assert(suffix_product(axes_spec, 1) == channels * (height * (width * 1)));
            assert(suffix_product(axes_spec, 0) == batch * (channels * (height * (width * 1))));
            assert(batch * (channels * (height * (width * 1))) == batch * channels * height * width) by (nonlinear_arith);
            assert(suffix_product(axes_spec, 0) <= usize::MAX);
            lemma_positive_extents(axes_spec, 0);
            assert(batch > 0 && channels > 0 && height > 0 && width > 0);
            assert(out_height >= 1 && out_width >= 1);
            assert(batch * out_height <= batch * out_height * out_width) by (nonlinear_arith)
                requires out_width >= 1;
            assert(batch * out_height * out_width <= batch * out_height * out_width * (channels * kernel_height * kernel_width))
                by (nonlinear_arith)
                requires channels >= 1, kernel_height >= 1, kernel_width >= 1;
            assert(channels * kernel_height <= channels * kernel_height * kernel_width) by (nonlinear_arith)
                requires kernel_width >= 1;
            assert(channels * kernel_height * kernel_width <= batch * out_height * out_width * (channels * kernel_height * kernel_width))
                by (nonlinear_arith)
                requires batch >= 1, out_height >= 1, out_width >= 1;
        }
        let rows = batch * out_height * out_width;
        let columns = channels * kernel_height * kernel_width;
        let mut patches: Vec<Element> = Vec::new();
        let mut row: usize = 0;
        while row < rows
            invariant
                elements@ == self.elements(),
                elements@.len() == batch * channels * height * width,
                batch * channels * height * width <= usize::MAX,
                rows == batch * out_height * out_width,
                columns == channels * kernel_height * kernel_width,
                rows * columns <= usize::MAX,
                out_height >= 1,
                out_width >= 1,
                channels >= 1,
                kernel_height >= 1,
                kernel_width >= 1,
                height + 2 * padding <= usize::MAX,
                width + 2 * padding <= usize::MAX,
                kernel_width <= width + 2 * padding,
                kernel_height <= height + 2 * padding,
                out_height == (height + 2 * padding - kernel_height) / (stride as int) + 1,
                out_width == (width + 2 * padding - kernel_width) / (stride as int) + 1,
                stride > 0,
                row <= rows,
                patches@ == patch_matrix(
                    self.elements(),
                    channels as nat,
                    height as nat,
                    width as nat,
                    kernel_height as nat,
                    kernel_width as nat,
                    out_height as nat,
                    out_width as nat,
                    stride as nat,
                    padding as nat,
                    zero,
                    columns as nat,
                    (row * columns) as nat,
                ),
            decreases rows - row,
        {
            let out_x = row % out_width;
            let rest = row / out_width;
            let out_y = rest % out_height;
            let image = rest / out_height;
            proof {
                lemma_quotient_below(row as int, out_width as int, (batch * out_height) as int);
                lemma_quotient_below(rest as int, out_height as int, batch as int);
                vstd::arithmetic::div_mod::lemma_mod_bound(row as int, out_width as int);
                vstd::arithmetic::div_mod::lemma_mod_bound(rest as int, out_height as int);
                vstd::arithmetic::div_mod::lemma_div_pos_is_pos((height + 2 * padding - kernel_height) as int, stride as int);
                vstd::arithmetic::div_mod::lemma_div_pos_is_pos((width + 2 * padding - kernel_width) as int, stride as int);
                assert(out_y * stride + kernel_height - 1 < height + 2 * padding) by {
                    let span = height + 2 * padding - kernel_height;
                    assert(out_y < out_height);
                    vstd::arithmetic::div_mod::lemma_fundamental_div_mod(span as int, stride as int);
                    vstd::arithmetic::div_mod::lemma_mod_bound(span as int, stride as int);
                    assert(out_y * stride <= span) by (nonlinear_arith)
                        requires out_y <= span / (stride as int), stride > 0, span >= 0,
                            span == stride * (span / (stride as int)) + span % (stride as int), span % (stride as int) >= 0;
                }
                assert(out_x * stride + kernel_width - 1 < width + 2 * padding) by {
                    let span = width + 2 * padding - kernel_width;
                    assert(out_x < out_width);
                    vstd::arithmetic::div_mod::lemma_fundamental_div_mod(span as int, stride as int);
                    vstd::arithmetic::div_mod::lemma_mod_bound(span as int, stride as int);
                    assert(out_x * stride <= span) by (nonlinear_arith)
                        requires out_x <= span / (stride as int), stride > 0, span >= 0,
                            span == stride * (span / (stride as int)) + span % (stride as int), span % (stride as int) >= 0;
                }
                assert(image * channels * height * width + channels * height * width <= batch * channels * height * width)
                    by (nonlinear_arith)
                    requires image < batch;
            }
            let mut channel: usize = 0;
            while channel < channels
                invariant
                    elements@ == self.elements(),
                    elements@.len() == batch * channels * height * width,
                    batch * channels * height * width <= usize::MAX,
                    rows == batch * out_height * out_width,
                    columns == channels * kernel_height * kernel_width,
                    rows * columns <= usize::MAX,
                    row < rows,
                    out_x == (row as int) % (out_width as int),
                    out_y == ((row as int) / (out_width as int)) % (out_height as int),
                    image == ((row as int) / (out_width as int)) / (out_height as int),
                    image < batch,
                    out_height >= 1,
                    out_width >= 1,
                    kernel_height >= 1,
                    kernel_width >= 1,
                    out_y * stride + kernel_height - 1 < height + 2 * padding,
                    out_x * stride + kernel_width - 1 < width + 2 * padding,
                    height + 2 * padding <= usize::MAX,
                    width + 2 * padding <= usize::MAX,
                    image * channels * height * width + channels * height * width <= batch * channels * height * width,
                    channel <= channels,
                    patches@ == patch_matrix(
                    self.elements(),
                    channels as nat,
                    height as nat,
                    width as nat,
                    kernel_height as nat,
                    kernel_width as nat,
                    out_height as nat,
                    out_width as nat,
                    stride as nat,
                    padding as nat,
                    zero,
                    columns as nat,
                    (row * columns + channel * kernel_height * kernel_width) as nat,
                ),
                decreases channels - channel,
            {
                let mut kernel_y: usize = 0;
                while kernel_y < kernel_height
                    invariant
                        elements@ == self.elements(),
                        elements@.len() == batch * channels * height * width,
                        batch * channels * height * width <= usize::MAX,
                        rows == batch * out_height * out_width,
                        columns == channels * kernel_height * kernel_width,
                        rows * columns <= usize::MAX,
                        row < rows,
                        out_x == (row as int) % (out_width as int),
                        out_y == ((row as int) / (out_width as int)) % (out_height as int),
                        image == ((row as int) / (out_width as int)) / (out_height as int),
                        image < batch,
                        channel < channels,
                        out_height >= 1,
                        out_width >= 1,
                        kernel_height >= 1,
                        kernel_width >= 1,
                        out_y * stride + kernel_height - 1 < height + 2 * padding,
                        out_x * stride + kernel_width - 1 < width + 2 * padding,
                        height + 2 * padding <= usize::MAX,
                        width + 2 * padding <= usize::MAX,
                        image * channels * height * width + channels * height * width <= batch * channels * height * width,
                        kernel_y <= kernel_height,
patches@ == patch_matrix(
                    self.elements(),
                    channels as nat,
                    height as nat,
                    width as nat,
                    kernel_height as nat,
                    kernel_width as nat,
                    out_height as nat,
                    out_width as nat,
                    stride as nat,
                    padding as nat,
                    zero,
                    columns as nat,
                    (row * columns + (channel * kernel_height + kernel_y) * kernel_width) as nat,
                ),
                    decreases kernel_height - kernel_y,
                {
                    let ghost start = (row * columns + (channel * kernel_height + kernel_y) * kernel_width) as int;
                    proof {
                        assert((channel * kernel_height + kernel_y) * kernel_width + kernel_width <= columns) by (nonlinear_arith)
                            requires channel < channels, kernel_y < kernel_height,
                                columns == channels * kernel_height * kernel_width;
                        assert(row * columns + columns <= rows * columns) by (nonlinear_arith)
                            requires row < rows;
                        assert((image * channels + channel + 1) * height * width <= elements@.len()) by (nonlinear_arith)
                            requires channel < channels, image < batch,
                                elements@.len() == batch * channels * height * width;
                        assert(channel * kernel_height + kernel_y < channels * kernel_height) by (nonlinear_arith)
                            requires channel < channels, kernel_y < kernel_height;
                        assert(out_y * stride + kernel_y < height + 2 * padding);
                    }
                    let ghost before = patches@;
                    push_patch_run(
                        &mut patches,
                        elements.as_slice(),
                        channels,
                        height,
                        width,
                        kernel_width,
                        padding,
                        zero,
                        image,
                        channel,
                        out_y * stride + kernel_y,
                        out_x * stride,
                    );
                    proof {
                        assert forall|kernel_x: int| 0 <= kernel_x < kernel_width implies #[trigger] patch_matrix(
                    self.elements(),
                    channels as nat,
                    height as nat,
                    width as nat,
                    kernel_height as nat,
                    kernel_width as nat,
                    out_height as nat,
                    out_width as nat,
                    stride as nat,
                    padding as nat,
                    zero,
                    columns as nat,
                    (start + kernel_width) as nat,
                )[start + kernel_x]
                            == padded_pixel(
                                elements@,
                                channels as nat,
                                height as nat,
                                width as nat,
                                padding as nat,
                                zero,
                                image as int,
                                channel as int,
                                out_y * stride + kernel_y,
                                out_x * stride + kernel_x,
                            ) by {
                            let column = (channel * kernel_height + kernel_y) * kernel_width + kernel_x;
                            assert(column < columns) by (nonlinear_arith)
                                requires channel * kernel_height + kernel_y < channels * kernel_height, kernel_x < kernel_width,
                                    columns == channels * kernel_height * kernel_width, kernel_x >= 0,
                                    column == (channel * kernel_height + kernel_y) * kernel_width + kernel_x;
                            assert(column >= 0);
                            assert(start + kernel_x == row * columns + column);
                            vstd::arithmetic::div_mod::lemma_fundamental_div_mod_converse(
                                start + kernel_x, columns as int, row as int, column);
                            lemma_three_digits(channel as int, kernel_y as int, kernel_x, kernel_height as int, kernel_width as int);
                            assert((start + kernel_x) / (columns as int) == row);
                            assert((start + kernel_x) % (columns as int) == column);
                            assert((column / (kernel_width as int)) / (kernel_height as int) == channel);
                            assert((column / (kernel_width as int)) % (kernel_height as int) == kernel_y);
                            assert(column % (kernel_width as int) == kernel_x);
                            assert(patch_matrix(
                    self.elements(),
                    channels as nat,
                    height as nat,
                    width as nat,
                    kernel_height as nat,
                    kernel_width as nat,
                    out_height as nat,
                    out_width as nat,
                    stride as nat,
                    padding as nat,
                    zero,
                    columns as nat,
                    (start + kernel_width) as nat,
                )[start + kernel_x] == patch_value(
                                self.elements(),
                                channels as nat,
                                height as nat,
                                width as nat,
                                kernel_height as nat,
                                kernel_width as nat,
                                out_height as nat,
                                out_width as nat,
                                stride as nat,
                                padding as nat,
                                zero,
                                row as int,
                                column,
                            ));
                        }
                        let ghost full = patch_matrix(
                    self.elements(),
                    channels as nat,
                    height as nat,
                    width as nat,
                    kernel_height as nat,
                    kernel_width as nat,
                    out_height as nat,
                    out_width as nat,
                    stride as nat,
                    padding as nat,
                    zero,
                    columns as nat,
                    (start + kernel_width) as nat,
                );
                        assert forall|index: int| 0 <= index < patches@.len() implies #[trigger] patches@[index] == full[index] by {
                            if index >= start {
                                let kernel_x = index - start;
                                assert(full[start + kernel_x] == padded_pixel(
                                    elements@,
                                    channels as nat,
                                    height as nat,
                                    width as nat,
                                    padding as nat,
                                    zero,
                                    image as int,
                                    channel as int,
                                    out_y * stride + kernel_y,
                                    out_x * stride + kernel_x,
                                ));
                            } else {
                                assert(patches@[index] == before[index]);
                            }
                        }
                        assert(patches@ =~= full);
                        assert((channel * kernel_height + kernel_y + 1) * kernel_width
                            == (channel * kernel_height + kernel_y) * kernel_width + kernel_width) by (nonlinear_arith);
                    }
                    kernel_y = kernel_y + 1;
                }
                proof {
                    assert((channel * kernel_height + kernel_height) * kernel_width
                        == (channel + 1) * kernel_height * kernel_width) by (nonlinear_arith);
                }
                channel = channel + 1;
            }
            proof {
                assert(channels * kernel_height * kernel_width == columns);
                assert(row * columns + columns == (row + 1) * columns) by (nonlinear_arith);
            }
            row = row + 1;
        }
        let patch_shape = Shape::new(vec![rows, columns]);
        proof {
            assert(suffix_product(patch_shape@, 2) == 1);
            assert(suffix_product(patch_shape@, 1) == columns * 1);
            assert(suffix_product(patch_shape@, 0) == rows * (columns * 1));
            assert(rows >= 1) by (nonlinear_arith)
                requires rows == batch * out_height * out_width, batch >= 1, out_height >= 1, out_width >= 1;
            assert(columns >= 1) by (nonlinear_arith)
                requires columns == channels * kernel_height * kernel_width, channels >= 1, kernel_height >= 1, kernel_width >= 1;
            assert(rows * columns > 0) by (nonlinear_arith)
                requires rows >= 1, columns >= 1;
            assert(rows <= rows * columns) by (nonlinear_arith)
                requires columns >= 1;
        }
        Self::dense(patch_shape, patches)
    }
}


/// The `size` by `size` window of the row-major `elements` with rows
/// `width` long whose top left corner is at `corner`, in row-major lane
/// order.
pub open spec fn pool_window<Element>(elements: Seq<Element>, width: nat, size: nat, corner: int) -> Seq<Element> {
    Seq::new(size * size, |lane: int| elements[corner + (lane / (size as int)) * width + lane % (size as int)])
}

/// Whether `pooled` is the max pool of the `[batch, channels, height,
/// width]` tensor `input`: one output per `size` by `size` window,
/// `stride` apart, each window folded with `maximum` in row-major lane
/// order from its corner.
pub open spec fn pools<Element, F: Fn(&Element, &Element) -> Element>(
    input: Tensor<Element>,
    size: usize,
    stride: usize,
    maximum: F,
    pooled: Tensor<Element>,
) -> bool {
    let axes = input.shape_spec();
    let planes = axes[0] * axes[1];
    let out_height = ((axes[2] - size) / (stride as int) + 1) as nat;
    let out_width = ((axes[3] - size) / (stride as int) + 1) as nat;
    &&& pooled.shape_spec() == seq![axes[0], axes[1], out_height as usize, out_width as usize]
    &&& pooled.elements().len() == planes * out_height * out_width
    &&& forall|plane: int, out_y: int, out_x: int|
        0 <= plane < planes && 0 <= out_y < out_height && 0 <= out_x < out_width
            ==> #[trigger] folded_by(
                maximum,
                pool_window(input.elements(), axes[3] as nat, size as nat, (plane * axes[2] + out_y * stride) * axes[3] + out_x * stride)[0],
                pool_window(input.elements(), axes[3] as nat, size as nat, (plane * axes[2] + out_y * stride) * axes[3] + out_x * stride)
                    .drop_first(),
                block_entry(pooled.elements(), out_height, out_width, plane, out_y, out_x),
            )
}

/// Folds `maximum` over the window at `corner`, in row-major lane order
/// from the corner element.
fn pool_window_max<Element: Copy, F: Fn(&Element, &Element) -> Element>(
    elements: &[Element],
    width: usize,
    size: usize,
    corner: usize,
    maximum: &F,
) -> (largest: Element)
    requires
        size >= 1,
        size <= width,
        corner + (size - 1) * width + size <= elements@.len(),
        elements@.len() <= usize::MAX,
        forall|a: Element, b: Element| #[trigger] maximum.requires((&a, &b)),
    ensures
        folded_by(
            *maximum,
            pool_window(elements@, width as nat, size as nat, corner as int)[0],
            pool_window(elements@, width as nat, size as nat, corner as int).drop_first(),
            largest,
        ),
{
    let ghost window = pool_window(elements@, width as nat, size as nat, corner as int);
    proof {
        assert(size * size >= 1) by (nonlinear_arith)
            requires size >= 1;
        vstd::arithmetic::div_mod::lemma_fundamental_div_mod_converse(0, size as int, 0, 0);
    }
    let mut largest = elements[corner];
    let ghost mut partials = seq![largest];
    let mut lane_y: usize = 0;
    while lane_y < size
        invariant
            size >= 1,
            size <= width,
            corner + (size - 1) * width + size <= elements@.len(),
            elements@.len() <= usize::MAX,
            forall|a: Element, b: Element| #[trigger] maximum.requires((&a, &b)),
            window == pool_window(elements@, width as nat, size as nat, corner as int),
            window.len() == size * size,
            window.len() >= 1,
            window[0] == elements@[corner as int],
            lane_y <= size,
            lane_y == 0 ==> partials == seq![largest],
            lane_y == 0 ==> largest == window[0],
            lane_y > 0 ==> chained(*maximum, window[0], window.subrange(1, lane_y * size), partials),
            partials.last() == largest,
        decreases size - lane_y,
    {
        let mut lane_x: usize = if lane_y == 0 { 1 } else { 0 };
        proof {
            if lane_y > 0 {
                assert(lane_y * size + lane_x >= 1) by (nonlinear_arith)
                    requires lane_y >= 1, size >= 1;
            }
            assert(window.subrange(1, 1) =~= Seq::<Element>::empty());
            assert(chained(*maximum, window[0], window.subrange(1, lane_y * size + lane_x), partials));
        }
        while lane_x < size
            invariant
                size >= 1,
                size <= width,
                corner + (size - 1) * width + size <= elements@.len(),
                elements@.len() <= usize::MAX,
                forall|a: Element, b: Element| #[trigger] maximum.requires((&a, &b)),
                window == pool_window(elements@, width as nat, size as nat, corner as int),
                window.len() == size * size,
                window.len() >= 1,
                lane_y < size,
                lane_x <= size,
                1 <= lane_y * size + lane_x,
                chained(*maximum, window[0], window.subrange(1, lane_y * size + lane_x), partials),
                partials.last() == largest,
            decreases size - lane_x,
        {
            let ghost lane = (lane_y * size + lane_x) as int;
            proof {
                assert(lane_y * width + lane_x <= (size - 1) * width + size - 1) by (nonlinear_arith)
                    requires lane_y <= size - 1, lane_x <= size - 1;
                assert(lane < size * size) by (nonlinear_arith)
                    requires lane == lane_y * size + lane_x, lane_y < size, lane_x < size;
                vstd::arithmetic::div_mod::lemma_fundamental_div_mod_converse(lane, size as int, lane_y as int, lane_x as int);
                assert(window[lane] == elements@[corner + lane_y * width + lane_x]);
            }
            let next = elements[corner + lane_y * width + lane_x];
            let combined = maximum(&largest, &next);
            proof {
                assert(window.subrange(1, lane + 1) =~= window.subrange(1, lane).push(next));
                let extended = partials.push(combined);
                assert(chained(*maximum, window[0], window.subrange(1, lane + 1), extended));
                partials = extended;
            }
            largest = combined;
            lane_x = lane_x + 1;
        }
        proof {
            assert(lane_y * size + size == (lane_y + 1) * size) by (nonlinear_arith);
        }
        lane_y = lane_y + 1;
    }
    proof {
        assert(window.subrange(1, size * size) =~= window.drop_first());
    }
    largest
}

impl<Element: Copy> Tensor<Element> {
    /// Returns the max pool of the `[batch, channels, height, width]`
    /// tensor: each output element folds its `size` by `size` window,
    /// `stride` apart, with `maximum` in row-major lane order from the
    /// window's corner.
    #[verifier::spinoff_prover]
    pub fn max_pooled<F: Fn(&Element, &Element) -> Element>(&self, size: usize, stride: usize, maximum: F) -> (pooled: Tensor<Element>)
        requires
            self.shape_spec().len() == 4,
            size > 0,
            stride > 0,
            size <= self.shape_spec()[2],
            size <= self.shape_spec()[3],
            forall|a: Element, b: Element| #[trigger] maximum.requires((&a, &b)),
        ensures
            pools(*self, size, stride, maximum, pooled),
    {
        proof {
            use_type_invariant(self);
            self.lemma_coherent();
        }
        let elements = self.to_vec();
        let shape = self.shape();
        let axes = shape.axes();
        let batch = axes[0];
        let channels = axes[1];
        let height = axes[2];
        let width = axes[3];
        let out_height = (height - size) / stride + 1;
        let out_width = (width - size) / stride + 1;
        proof {
            let axes_spec = shape@;
            assert(suffix_product(axes_spec, 4) == 1);
            assert(suffix_product(axes_spec, 3) == width * 1);
            assert(suffix_product(axes_spec, 2) == height * (width * 1));
            assert(suffix_product(axes_spec, 1) == channels * (height * (width * 1)));
            assert(suffix_product(axes_spec, 0) == batch * (channels * (height * (width * 1))));
            assert(batch * (channels * (height * (width * 1))) == batch * channels * height * width) by (nonlinear_arith);
            assert(suffix_product(axes_spec, 0) <= usize::MAX);
            lemma_positive_extents(axes_spec, 0);
            vstd::arithmetic::div_mod::lemma_fundamental_div_mod((height - size) as int, stride as int);
            vstd::arithmetic::div_mod::lemma_mod_bound((height - size) as int, stride as int);
            vstd::arithmetic::div_mod::lemma_fundamental_div_mod((width - size) as int, stride as int);
            vstd::arithmetic::div_mod::lemma_mod_bound((width - size) as int, stride as int);
            vstd::arithmetic::div_mod::lemma_div_pos_is_pos((height - size) as int, stride as int);
            vstd::arithmetic::div_mod::lemma_div_pos_is_pos((width - size) as int, stride as int);
            assert((out_height - 1) * stride <= height - size) by (nonlinear_arith)
                requires out_height - 1 == (height - size) / (stride as int),
                    height - size == stride * ((height - size) / (stride as int)) + (height - size) % (stride as int),
                    (height - size) % (stride as int) >= 0;
            assert((out_width - 1) * stride <= width - size) by (nonlinear_arith)
                requires out_width - 1 == (width - size) / (stride as int),
                    width - size == stride * ((width - size) / (stride as int)) + (width - size) % (stride as int),
                    (width - size) % (stride as int) >= 0;
            assert(out_height <= height) by (nonlinear_arith)
                requires (out_height - 1) * stride <= height - size, stride >= 1, size >= 1, out_height >= 1;
            assert(out_width <= width) by (nonlinear_arith)
                requires (out_width - 1) * stride <= width - size, stride >= 1, size >= 1, out_width >= 1;
            assert(batch * channels * out_height * out_width <= batch * channels * height * width) by (nonlinear_arith)
                requires out_height <= height, out_width <= width;
            assert(batch * channels <= batch * channels * height * width) by (nonlinear_arith)
                requires height >= 1, width >= 1;
            assert(batch * channels * out_height <= batch * channels * out_height * out_width) by (nonlinear_arith)
                requires out_width >= 1;
        }
        let planes = batch * channels;
        let lines = planes * out_height;
        let ghost total = planes * out_height * out_width;
        let taking = &maximum;
        let mut pooled: Vec<Element> = Vec::new();
        let mut line: usize = 0;
        while line < lines
            invariant
                elements@ == self.elements(),
                elements@.len() == planes * height * width,
                planes * height * width <= usize::MAX,
                planes == batch * channels,
                lines == planes * out_height,
                total == lines * out_width,
                total <= planes * height * width,
                size >= 1,
                size <= width,
                stride >= 1,
                out_height >= 1,
                out_width >= 1,
                (out_height - 1) * stride <= height - size,
                (out_width - 1) * stride <= width - size,
                forall|a: Element, b: Element| #[trigger] taking.requires((&a, &b)),
                *taking == maximum,
                line <= lines,
                pooled@.len() == line * out_width,
                forall|l: int, out_x: int| 0 <= l < line && 0 <= out_x < out_width
                    ==> #[trigger] folded_by(
                        maximum,
                        pool_window(elements@, width as nat, size as nat, ((l / (out_height as int)) * height + (l % (out_height as int)) * stride) * width + out_x * stride)[0],
                        pool_window(elements@, width as nat, size as nat, ((l / (out_height as int)) * height + (l % (out_height as int)) * stride) * width + out_x * stride)
                            .drop_first(),
                        entry(pooled@, out_width as nat, l, out_x),
                    ),
            decreases lines - line,
        {
            let plane = line / out_height;
            let out_y = line % out_height;
            proof {
                lemma_quotient_below(line as int, out_height as int, planes as int);
                vstd::arithmetic::div_mod::lemma_mod_bound(line as int, out_height as int);
                assert(out_y * stride <= (out_height - 1) * stride) by (nonlinear_arith)
                    requires out_y <= out_height - 1;
                assert(out_y * stride + size <= height);
                assert(plane * height + out_y * stride + size <= (plane + 1) * height) by (nonlinear_arith)
                    requires out_y * stride + size <= height;
                assert((plane + 1) * height <= planes * height) by (nonlinear_arith)
                    requires plane < planes, height >= 0;
                assert((plane * height + out_y * stride + size) * width <= planes * height * width) by (nonlinear_arith)
                    requires plane * height + out_y * stride + size <= planes * height, width >= 0;
            }
            let ghost done = pooled@;
            let mut out_x: usize = 0;
            while out_x < out_width
                invariant
                    elements@ == self.elements(),
                    elements@.len() == planes * height * width,
                    planes * height * width <= usize::MAX,
                    size >= 1,
                    size <= width,
                    stride >= 1,
                    out_width >= 1,
                    (out_width - 1) * stride <= width - size,
                    plane == (line as int) / (out_height as int),
                    out_y == (line as int) % (out_height as int),
                    out_y * stride + size <= height,
                    (plane * height + out_y * stride + size) * width <= planes * height * width,
                    forall|a: Element, b: Element| #[trigger] taking.requires((&a, &b)),
                    *taking == maximum,
                    out_x <= out_width,
                    done.len() == line * out_width,
                    pooled@.len() == line * out_width + out_x,
                    pooled@.subrange(0, done.len() as int) == done,
                    forall|x: int| 0 <= x < out_x
                        ==> #[trigger] folded_by(
                            maximum,
                            pool_window(elements@, width as nat, size as nat, (plane * height + out_y * stride) * width + x * stride)[0],
                            pool_window(elements@, width as nat, size as nat, (plane * height + out_y * stride) * width + x * stride).drop_first(),
                            pooled@[line * out_width + x],
                        ),
                decreases out_width - out_x,
            {
                proof {
                    assert(out_x * stride <= (out_width - 1) * stride) by (nonlinear_arith)
                        requires out_x <= out_width - 1;
                    let top = plane * height + out_y * stride;
                    assert(top * width + out_x * stride + (size - 1) * width + size <= (top + size) * width) by (nonlinear_arith)
                        requires out_x * stride + size <= width;
                    assert(top * width <= (top + size) * width) by (nonlinear_arith)
                        requires size >= 0, width >= 0;
                    assert(plane * height <= top);
                    assert(top <= top * width) by (nonlinear_arith)
                        requires width >= 1, top >= 0;
                    assert(plane <= plane * height) by (nonlinear_arith)
                        requires height >= 1, plane >= 0;
                }
                let corner = (plane * height + out_y * stride) * width + out_x * stride;
                let largest = pool_window_max(elements.as_slice(), width, size, corner, taking);
                let ghost grown = pooled@;
                pooled.push(largest);
                proof {
                    assert(pooled@.subrange(0, done.len() as int) =~= done) by {
                        assert(grown.subrange(0, done.len() as int) == done);
                    }
                    assert forall|x: int| 0 <= x < out_x + 1
                        implies #[trigger] folded_by(
                            maximum,
                            pool_window(elements@, width as nat, size as nat, (plane * height + out_y * stride) * width + x * stride)[0],
                            pool_window(elements@, width as nat, size as nat, (plane * height + out_y * stride) * width + x * stride).drop_first(),
                            pooled@[line * out_width + x],
                        ) by {
                        if x < out_x {
                            assert(pooled@[line * out_width + x] == grown[line * out_width + x]);
                        }
                    }
                }
                out_x = out_x + 1;
            }
            proof {
                assert(done.len() <= pooled@.len());
                assert forall|l: int, x: int| 0 <= l < line + 1 && 0 <= x < out_width
                    implies #[trigger] folded_by(
                        maximum,
                        pool_window(elements@, width as nat, size as nat, ((l / (out_height as int)) * height + (l % (out_height as int)) * stride) * width + x * stride)[0],
                        pool_window(elements@, width as nat, size as nat, ((l / (out_height as int)) * height + (l % (out_height as int)) * stride) * width + x * stride)
                            .drop_first(),
                        entry(pooled@, out_width as nat, l, x),
                    ) by {
                    if l < line {
                        assert(l * out_width + x < line * out_width) by (nonlinear_arith)
                            requires l < line, x < out_width;
                        assert(pooled@.subrange(0, done.len() as int)[l * out_width + x] == pooled@[l * out_width + x]);
                        assert(entry(done, out_width as nat, l, x) == entry(pooled@, out_width as nat, l, x));
                    }
                }
                assert(line * out_width + out_width == (line + 1) * out_width) by (nonlinear_arith);
            }
            line = line + 1;
        }
        let pooled_shape = Shape::new(vec![batch, channels, out_height, out_width]);
        proof {
            let result = pooled_shape@;
            assert(suffix_product(result, 4) == 1);
            assert(suffix_product(result, 3) == out_width * 1);
            assert(suffix_product(result, 2) == out_height * (out_width * 1));
            assert(suffix_product(result, 1) == channels * (out_height * (out_width * 1)));
            assert(suffix_product(result, 0) == batch * (channels * (out_height * (out_width * 1))));
            assert(batch * (channels * (out_height * (out_width * 1))) == planes * out_height * out_width) by (nonlinear_arith)
                requires planes == batch * channels;
            assert(out_width <= out_height * out_width) by (nonlinear_arith)
                requires out_height >= 1;
            assert(out_height * out_width <= channels * (out_height * out_width)) by (nonlinear_arith)
                requires channels >= 1;
            assert(channels * (out_height * out_width) <= batch * (channels * (out_height * out_width))) by (nonlinear_arith)
                requires batch >= 1;
            assert(planes >= 1) by (nonlinear_arith)
                requires planes == batch * channels, batch >= 1, channels >= 1;
            assert(planes * out_height * out_width > 0) by (nonlinear_arith)
                requires planes >= 1, out_height >= 1, out_width >= 1;
            assert forall|plane: int, out_y: int, out_x: int|
                0 <= plane < planes && 0 <= out_y < out_height && 0 <= out_x < out_width
                    implies #[trigger] folded_by(
                        maximum,
                        pool_window(self.elements(), width as nat, size as nat, (plane * height + out_y * stride) * width + out_x * stride)[0],
                        pool_window(self.elements(), width as nat, size as nat, (plane * height + out_y * stride) * width + out_x * stride)
                            .drop_first(),
                        block_entry(pooled@, out_height as nat, out_width as nat, plane, out_y, out_x),
                    ) by {
                let l = plane * out_height + out_y;
                assert(l < (plane + 1) * out_height) by (nonlinear_arith)
                    requires l == plane * out_height + out_y, out_y < out_height;
                assert((plane + 1) * out_height <= planes * out_height) by (nonlinear_arith)
                    requires plane < planes, out_height >= 0;
                assert(0 <= l) by (nonlinear_arith)
                    requires l == plane * out_height + out_y, plane >= 0, out_y >= 0, out_height >= 0;
                vstd::arithmetic::div_mod::lemma_fundamental_div_mod_converse(l, out_height as int, plane, out_y);
                assert(entry(pooled@, out_width as nat, l, out_x) == block_entry(pooled@, out_height as nat, out_width as nat, plane, out_y, out_x));
            }
        }
        Self::dense(pooled_shape, pooled)
    }
}


/// Whether `output` holds the `From` conversion of each element of
/// `input`, position for position.
pub open spec fn converted<Element, Target: From<Element>>(input: Seq<Element>, output: Seq<Target>) -> bool {
    &&& output.len() == input.len()
    &&& forall|position: int| 0 <= position < input.len() ==> call_ensures(Target::from, (input[position],), #[trigger] output[position])
}

/// Converts every element of `buffer` through its `From` conversion.
fn convert_buffer<Element: Copy, Target: From<Element>>(buffer: &Vec<Element>) -> (output: Vec<Target>)
    ensures
        converted(buffer@, output@),
{
    let mut output: Vec<Target> = Vec::new();
    let mut index: usize = 0;
    while index < buffer.len()
        invariant
            index <= buffer@.len(),
            output@.len() == index,
            forall|position: int| 0 <= position < index ==> call_ensures(Target::from, (buffer@[position],), #[trigger] output@[position]),
        decreases buffer@.len() - index,
    {
        output.push(Target::from(buffer[index]));
        index = index + 1;
    }
    output
}

impl<Element: Copy> Tensor<Element> {
    /// Returns this tensor with every element converted into `Target`
    /// through its `From` conversion, preserving the storage
    /// representation: a constant stays a constant, a selection stays a
    /// selection, and a dense view keeps its layout.
    pub fn convert<Target: From<Element>>(&self) -> (result: Tensor<Target>)
        ensures
            result.shape_spec() == self.shape_spec(),
            converted(self.elements(), result.elements()),
            result.is_constant_spec() == self.is_constant_spec(),
            result.selection_spec() == self.selection_spec(),
    {
        proof {
            use_type_invariant(self);
            self.lemma_coherent();
        }
        match &self.storage {
            Storage::Dense { data, layout } => {
                let buffer = convert_buffer(&**data);
                let result = Tensor { storage: Storage::Dense { data: Arc::new(buffer), layout: layout.clone() } };
                proof {
                    assert forall|position: int| 0 <= position < self.elements().len() implies call_ensures(
                        Target::from,
                        (self.elements()[position],),
                        #[trigger] result.elements()[position],
                    ) by {
                        lemma_address_bound(layout@.0, layout@.1, position as nat, 0);
                    }
                }
                result
            },
            Storage::Constant { shape, value } => {
                let converted_value = Target::from(*value);
                Tensor { storage: Storage::Constant { shape: shape.clone(), value: converted_value } }
            },
            Storage::Selection { indices, shape, zero, one } => {
                let converted_zero = Target::from(*zero);
                let converted_one = Target::from(*one);
                Tensor {
                    storage: Storage::Selection {
                        indices: Arc::clone(indices),
                        shape: shape.clone(),
                        zero: converted_zero,
                        one: converted_one,
                    },
                }
            },
        }
    }
}


/// Whether `product` is the windowed product of the `[batch, channels,
/// height, width]` tensor `image` with the GEMM-shaped `[columns, filters]`
/// `kernel`: the im2col matrix of the padded, strided kernel windows
/// times the kernel, every output element summed by `add`, left to right,
/// over the products by `multiply`.
pub open spec fn windowed_product_by<Element, M: Fn(&Element, &Element) -> Element, A: Fn(&Element, &Element) -> Element>(
    image: Tensor<Element>,
    kernel: Tensor<Element>,
    kernel_height: usize,
    kernel_width: usize,
    stride: usize,
    padding: usize,
    zero: Element,
    multiply: M,
    add: A,
    product: Tensor<Element>,
) -> bool {
    let axes = image.shape_spec();
    let out_height = out_extent(axes[2] as nat, kernel_height as nat, stride as nat, padding as nat);
    let out_width = out_extent(axes[3] as nat, kernel_width as nat, stride as nat, padding as nat);
    let rows = axes[0] * out_height * out_width;
    let columns = axes[1] * kernel_height * kernel_width;
    let filters = kernel.shape_spec()[1] as nat;
    let patches = patch_matrix(
        image.elements(),
        axes[1] as nat,
        axes[2] as nat,
        axes[3] as nat,
        kernel_height as nat,
        kernel_width as nat,
        out_height,
        out_width,
        stride as nat,
        padding as nat,
        zero,
        columns as nat,
        (rows * columns) as nat,
    );
    &&& product.shape_spec() == seq![rows as usize, filters as usize]
    &&& product.elements().len() == rows * filters
    &&& forall|row: int, filter: int|
        0 <= row < rows && 0 <= filter < filters
            ==> #[trigger] dotted_by(
                multiply,
                add,
                matrix_row(patches, rows as nat, columns as nat, 0, row),
                matrix_column(kernel.elements(), columns as nat, filters, 0, filter),
                entry(product.elements(), filters, row, filter),
            )
}

/// Whether a windowed product of a `[batch, channels, height, width]`
/// image of extents `image` with a kernel of extents `kernel` is defined
/// and representable: a rank-4 image, positive kernel extents and stride,
/// kernel windows that fit the padded image, a `[columns, filters]`
/// kernel whose rows match the patch columns, and patch and product
/// volumes within `usize`.
pub open spec fn window_product_fits(
    image: Seq<usize>,
    kernel: Seq<usize>,
    kernel_height: usize,
    kernel_width: usize,
    stride: usize,
    padding: usize,
) -> bool {
    let rows = image[0] * out_extent(image[2] as nat, kernel_height as nat, stride as nat, padding as nat)
        * out_extent(image[3] as nat, kernel_width as nat, stride as nat, padding as nat);
    let columns = image[1] * kernel_height * kernel_width;
    &&& image.len() == 4
    &&& stride > 0
    &&& kernel_height > 0
    &&& kernel_width > 0
    &&& image[2] + 2 * padding <= usize::MAX
    &&& image[3] + 2 * padding <= usize::MAX
    &&& kernel_height <= image[2] + 2 * padding
    &&& kernel_width <= image[3] + 2 * padding
    &&& rows * columns <= usize::MAX
    &&& kernel.len() == 2
    &&& kernel[0] == columns
    &&& fits(seq![rows as usize, kernel[1]])
}

impl<Element: Copy> Tensor<Element> {
    /// Returns the im2col product of `self` with the GEMM-shaped `kernel`:
    /// the window rows of the padded, strided sliding windows,
    /// matrix-multiplied in one call.
    pub fn windowed_product<M: Fn(&Element, &Element) -> Element, A: Fn(&Element, &Element) -> Element>(
        &self,
        kernel: &Self,
        kernel_height: usize,
        kernel_width: usize,
        stride: usize,
        padding: usize,
        zero: Element,
        multiply: M,
        add: A,
    ) -> (product: Tensor<Element>)
        requires
            window_product_fits(self.shape_spec(), kernel.shape_spec(), kernel_height, kernel_width, stride, padding),
            forall|a: Element, b: Element| #[trigger] multiply.requires((&a, &b)),
            forall|a: Element, b: Element| #[trigger] add.requires((&a, &b)),
        ensures
            windowed_product_by(*self, *kernel, kernel_height, kernel_width, stride, padding, zero, multiply, add, product),
    {
        let patches = self.windowed_patches(kernel_height, kernel_width, stride, padding, zero);
        let ghost axes = self.shape_spec();
        let ghost out_height = out_extent(axes[2] as nat, kernel_height as nat, stride as nat, padding as nat);
        let ghost out_width = out_extent(axes[3] as nat, kernel_width as nat, stride as nat, padding as nat);
        let ghost rows = axes[0] * out_height * out_width;
        let ghost columns = axes[1] * kernel_height * kernel_width;
        proof {
            use_type_invariant(self);
            self.lemma_coherent();
            use_type_invariant(kernel);
            kernel.lemma_coherent();
            assert(axes[0] >= 1 && axes[1] >= 1);
            assert(out_height >= 1 && out_width >= 1) by {
                vstd::arithmetic::div_mod::lemma_div_pos_is_pos((axes[2] + 2 * padding - kernel_height) as int, stride as int);
                vstd::arithmetic::div_mod::lemma_div_pos_is_pos((axes[3] + 2 * padding - kernel_width) as int, stride as int);
            }
            assert(columns >= 1) by (nonlinear_arith)
                requires columns == axes[1] * kernel_height * kernel_width, axes[1] >= 1, kernel_height >= 1, kernel_width >= 1;
            assert(rows >= 1) by (nonlinear_arith)
                requires rows == axes[0] * out_height * out_width, axes[0] >= 1, out_height >= 1, out_width >= 1;
            assert(rows <= rows * columns) by (nonlinear_arith)
                requires columns >= 1, rows >= 1;
            assert(columns <= rows * columns) by (nonlinear_arith)
                requires rows >= 1, columns >= 1;
            assert(kernel.shape_spec().take(0) =~= patches.shape_spec().take(0));
            assert(product_axes(patches.shape_spec(), kernel.shape_spec()) =~= seq![rows as usize, kernel.shape_spec()[1]]);
        }
        let product = patches.matmul(kernel, multiply, add);
        proof {
            let filters = kernel.shape_spec()[1] as nat;
            assert(prefix_product(patches.shape_spec(), 0) == 1);
            assert(product_axes(patches.shape_spec(), kernel.shape_spec()) =~= seq![rows as usize, filters as usize]);
            assert forall|row: int, filter: int| 0 <= row < rows && 0 <= filter < filters
                implies #[trigger] entry(product.elements(), filters, row, filter)
                    == block_entry(product.elements(), rows as nat, filters, 0, row, filter) by {}
        }
        product
    }
}


impl<Element: Copy> Tensor<Element> {
    /// Returns this tensor reinterpreted with `shape` in logical row-major
    /// order: the same elements in the same order.
    ///
    /// A contiguous dense tensor and a constant reshape into an O(1) view
    /// over the same buffer, and so does a strided view when only extent-1
    /// axes are inserted or removed; any other reshape is materialized.
    pub fn reshape(&self, shape: Shape) -> (reshaped: Tensor<Element>)
        requires
            fits(shape@),
            volume_of(shape@) == volume_of(self.shape_spec()),
        ensures
            reshaped.shape_spec() == shape@,
            reshaped.elements() == self.elements(),
    {
        proof {
            use_type_invariant(self);
            self.lemma_coherent();
            lemma_positive_extents(shape@, 0);
        }
        match &self.storage {
            Storage::Constant { value, .. } => {
                let reshaped = Tensor { storage: Storage::Constant { shape, value: *value } };
                proof {
                    assert(reshaped.elements() =~= self.elements());
                }
                reshaped
            },
            Storage::Dense { data, layout } => {
                let target = shape.clone();
                match layout.reshape(target) {
                    Some(view) => {
                        proof {
                            let old = layout@;
                            let axes = shape@;
                            crate::shape::lemma_suffix_product_positive(old.0, 0);
                            if contiguous_on(old.0, old.1) {
                                assert(view@.1 =~= Seq::new(axes.len(), |k: int| suffix_product(axes, k + 1) as usize));
                                assert(is_row_major(axes, view@.1)) by {
                                    assert forall|k: int| 0 <= k < axes.len() implies #[trigger] view@.1[k] == suffix_product(axes, k + 1) by {
                                        assert(suffix_product(axes, k + 1) <= usize::MAX);
                                    }
                                }
                                law_row_major_is_contiguous(axes, view@.1);
                                lemma_contiguous_reach(axes, view@.1, 0);
                                lemma_contiguous_reach(old.0, old.1, 0);
                            } else {
                                lemma_unit_view_length(axes, old.0, old.1, 0, 0);
                                assert(view@.1.skip(0) =~= view@.1);
                                lemma_unit_view_address(axes, old.0, old.1, view@.1, 0, 0, 0);
                            }
                        }
                        let reshaped = Tensor { storage: Storage::Dense { data: Arc::clone(data), layout: view } };
                        proof {
                            let old = layout@;
                            let axes = shape@;
                            assert forall|position: int| 0 <= position < reshaped.elements().len() implies
                                #[trigger] reshaped.elements()[position] == self.elements()[position] by {
                                if contiguous_on(old.0, old.1) {
                                    law_contiguous_index_is_identity(view@, position as nat);
                                    law_contiguous_index_is_identity(old, position as nat);
                                } else {
                                    lemma_unit_view_address(axes, old.0, old.1, view@.1, position as nat, 0, 0);
                                }
                            }
                            assert(reshaped.elements() =~= self.elements());
                        }
                        reshaped
                    },
                    None => Self::dense(shape, self.to_vec()),
                }
            },
            Storage::Selection { .. } => Self::dense(shape, self.to_vec()),
        }
    }
}


/// Transposing a matrix twice gives back its elements: if `middle` holds
/// the transpose of the `rows` by `columns` matrix `first`, and `last` the
/// transpose of `middle`, then `last` is `first`.
pub proof fn law_transpose_twice_is_identity<Element>(
    first: Seq<Element>,
    middle: Seq<Element>,
    last: Seq<Element>,
    rows: nat,
    columns: nat,
)
    requires
        first.len() == rows * columns,
        last.len() == rows * columns,
        forall|row: int, column: int| 0 <= row < columns && 0 <= column < rows
            ==> #[trigger] entry(middle, rows, row, column) == entry(first, columns, column, row),
        forall|row: int, column: int| 0 <= row < rows && 0 <= column < columns
            ==> #[trigger] entry(last, columns, row, column) == entry(middle, rows, column, row),
    ensures
        last == first,
{
    assert forall|position: int| 0 <= position < first.len() implies #[trigger] last[position] == first[position] by {
        let row = position / columns as int;
        let column = position % columns as int;
        assert(columns > 0) by (nonlinear_arith)
            requires position < rows * columns, 0 <= position;
        vstd::arithmetic::div_mod::lemma_fundamental_div_mod(position, columns as int);
        vstd::arithmetic::div_mod::lemma_mod_bound(position, columns as int);
        assert(row < rows) by (nonlinear_arith)
            requires position == columns * row + column, 0 <= column, position < rows * columns, columns > 0;
        assert(0 <= row) by (nonlinear_arith)
            requires position == columns * row + column, column < columns, 0 <= position, columns > 0;
        assert(entry(last, columns, row, column) == entry(middle, rows, column, row));
        assert(entry(middle, rows, column, row) == entry(first, columns, row, column));
        assert(row * columns + column == position) by (nonlinear_arith)
            requires position == columns * row + column;
    }
    assert(last =~= first);
}


impl<Element> Tensor<Element> {
    /// Returns the additive identity `zero` shaped like this tensor,
    /// stored as a constant: the seed of gradient accumulators.
    pub fn zero_like(&self, zero: Element) -> (zeros: Tensor<Element>)
        ensures
            zeros.shape_spec() == self.shape_spec(),
            zeros.elements() == Seq::new(self.elements().len(), |position: int| zero),
            zeros.is_constant_spec(),
    {
        Tensor::filled(self.shape(), zero)
    }

    /// Returns the multiplicative identity `one` shaped like this tensor,
    /// stored as a constant: the seed of the output gradient.
    pub fn one_like(&self, one: Element) -> (ones: Tensor<Element>)
        ensures
            ones.shape_spec() == self.shape_spec(),
            ones.elements() == Seq::new(self.elements().len(), |position: int| one),
            ones.is_constant_spec(),
    {
        Tensor::filled(self.shape(), one)
    }
}

impl<Element: Copy> Clone for Tensor<Element> {
    /// Shares the buffer and copies only the metadata.
    fn clone(&self) -> (copy: Self)
        ensures
            copy.shape_spec() == self.shape_spec(),
            copy.elements() == self.elements(),
    {
        proof {
            use_type_invariant(self);
        }
        match &self.storage {
            Storage::Dense { data, layout } => Tensor { storage: Storage::Dense { data: Arc::clone(data), layout: layout.clone() } },
            Storage::Constant { shape, value } => Tensor { storage: Storage::Constant { shape: shape.clone(), value: *value } },
            Storage::Selection { indices, shape, zero, one } => Tensor {
                storage: Storage::Selection { indices: Arc::clone(indices), shape: shape.clone(), zero: *zero, one: *one },
            },
        }
    }
}

} // verus!
