use vstd::prelude::*;

use super::{reads_exactly, unary, Reads};
use crate::inline::Strides;
use crate::shape::Shape;

verus! {

/// Whether `order` is a permutation of `0..rank`: every axis below the
/// rank exactly once.
pub open spec fn is_permutation(order: Seq<usize>, rank: nat) -> bool {
    &&& order.len() == rank
    &&& forall|i: int| 0 <= i < order.len() ==> #[trigger] order[i] < rank
    &&& forall|i: int, j: int| 0 <= i < j < order.len() ==> order[i] != order[j]
}

/// The axes of `axes` reordered by `order`: position `i` takes axis
/// `order[i]`.
pub open spec fn permuted(axes: Seq<usize>, order: Seq<usize>) -> Seq<usize> {
    Seq::new(order.len(), |i: int| axes[order[i] as int])
}

/// A permutation of a value's axes: axis `i` of the result takes axis
/// `order[i]` of the operand.
///
/// The gradient of the operand is the incoming gradient reordered by
/// the inverse permutation.
#[derive(Debug)]
pub struct Permute {
    /// The axis order, stored inline through rank four.
    pub order: Strides,
}

impl Permute {
    /// Creates the permutation taking axis `order[i]` to position `i`.
    pub fn new(order: Vec<usize>) -> (permute: Permute)
        ensures
            permute.order@ == order@,
    {
        Permute { order: Strides::from_vec(order) }
    }

    /// Returns the arity: one operand.
    pub fn arity(&self) -> (arity: usize)
        ensures
            arity == 1,
    {
        1
    }

    /// Returns the read set of the derivative rule: it reads no
    /// payloads, the cotangent permutes back.
    pub fn reads(&self) -> (reads: Reads)
        ensures
            reads_exactly(reads, false, false, false),
    {
        Reads::nothing()
    }

    /// Returns whether `order` is a permutation of the operand's axes:
    /// it covers every axis, and none twice.
    pub fn accepts(&self, operand: &Shape) -> (accepted: bool)
        ensures
            accepted == is_permutation(self.order@, operand@.len()),
    {
        let order = self.order.as_slice();
        let rank = operand.rank();
        if order.len() != rank {
            return false;
        }
        let mut seen: Vec<bool> = vec![false; rank];
        let mut position: usize = 0;
        while position < order.len()
            invariant
                order@ == self.order@,
                rank == operand@.len(),
                order@.len() == rank,
                seen@.len() == rank,
                position <= order@.len(),
                forall|i: int| 0 <= i < position ==> #[trigger] order@[i] < rank,
                forall|i: int, j: int| 0 <= i < j < position ==> order@[i] != order@[j],
                forall|a: int| 0 <= a < rank ==> (seen@[a] <==> exists|i: int| 0 <= i < position && order@[i] == a),
            decreases order@.len() - position,
        {
            let axis = order[position];
            if axis >= rank {
                return false;
            }
            if seen[axis] {
                return false;
            }
            seen.set(axis, true);
            position = position + 1;
            assert forall|a: int| 0 <= a < rank implies (seen@[a] <==> exists|i: int| 0 <= i < position && order@[i] == a) by {
                if a == axis {
                    assert(order@[position - 1] == a);
                } else {
                    if seen@[a] {
                        let i = choose|i: int| 0 <= i < position - 1 && order@[i] == a;
                        assert(0 <= i < position && order@[i] == a);
                    }
                }
            }
        }
        true
    }

    /// Infers the result shape: the operand's axes reordered by `order`,
    /// which must be a permutation of the operand's axes.
    pub fn infer_shape(&self, operands: &[Shape]) -> (shape: Shape)
        requires
            operands@.len() == 1,
            is_permutation(self.order@, operands@[0]@.len()),
        ensures
            shape@ == permuted(operands@[0]@, self.order@),
    {
        let operand = unary(operands);
        let axes = operand.axes();
        let order = self.order.as_slice();
        let mut result: Vec<usize> = Vec::new();
        let mut position: usize = 0;
        while position < order.len()
            invariant
                axes@ == operands@[0]@,
                order@ == self.order@,
                is_permutation(order@, axes@.len()),
                position <= order@.len(),
                result@ == permuted(axes@, order@).subrange(0, position as int),
            decreases order@.len() - position,
        {
            result.push(axes[order[position]]);
            position = position + 1;
            assert(result@ =~= permuted(axes@, order@).subrange(0, position as int));
        }
        assert(result@ =~= permuted(axes@, order@));
        Shape::new(result)
    }

    /// Returns the inverse permutation: the order that undoes
    /// `self.order`.
    pub fn inverse(&self) -> (inverse: Vec<usize>)
        requires
            is_permutation(self.order@, self.order@.len()),
        ensures
            inverse@.len() == self.order@.len(),
            forall|i: int| 0 <= i < self.order@.len() ==> #[trigger] inverse@[self.order@[i] as int] == i,
    {
        let order = self.order.as_slice();
        let mut inverse: Vec<usize> = vec![0usize; order.len()];
        let mut position: usize = 0;
        while position < order.len()
            invariant
                order@ == self.order@,
                is_permutation(order@, order@.len()),
                inverse@.len() == order@.len(),
                position <= order@.len(),
                forall|i: int| 0 <= i < position ==> #[trigger] inverse@[order@[i] as int] == i,
            decreases order@.len() - position,
        {
            inverse.set(order[position], position);
            position = position + 1;
        }
        inverse
    }
}

/// The inverse of a permutation is itself a permutation, and each
/// undoes the other: `inverse[order[i]] == i` and
/// `order[inverse[a]] == a`.
pub proof fn law_inverse_undoes_the_order(order: Seq<usize>, inverse: Seq<usize>)
    requires
        is_permutation(order, order.len()),
        inverse.len() == order.len(),
        forall|i: int| 0 <= i < order.len() ==> #[trigger] inverse[order[i] as int] == i,
    ensures
        is_permutation(inverse, order.len()),
        forall|a: int| 0 <= a < order.len() ==> #[trigger] order[inverse[a] as int] == a,
{
    lemma_permutation_is_onto(order);
    assert forall|a: int| 0 <= a < order.len() implies #[trigger] order[inverse[a] as int] == a by {
        assert(appears(order, a));
        let i = choose|i: int| 0 <= i < order.len() && order[i] == a;
        assert(inverse[order[i] as int] == i);
    }
    assert forall|a: int| 0 <= a < inverse.len() implies #[trigger] inverse[a] < order.len() by {
        assert(appears(order, a));
        let i = choose|i: int| 0 <= i < order.len() && order[i] == a;
        assert(inverse[order[i] as int] == i);
    }
    assert forall|a: int, b: int| 0 <= a < b < inverse.len() implies inverse[a] != inverse[b] by {
        assert(appears(order, a));
        assert(appears(order, b));
        let i = choose|i: int| 0 <= i < order.len() && order[i] == a;
        let j = choose|j: int| 0 <= j < order.len() && order[j] == b;
        assert(inverse[order[i] as int] == i);
        assert(inverse[order[j] as int] == j);
    }
}

/// Permuting the axes by `order` and then by its inverse gives the
/// axes back: the inverse permutation's gradient rule restores the
/// operand's shape.
pub proof fn law_inverse_restores_the_axes(axes: Seq<usize>, order: Seq<usize>, inverse: Seq<usize>)
    requires
        is_permutation(order, axes.len()),
        inverse.len() == order.len(),
        forall|i: int| 0 <= i < order.len() ==> #[trigger] inverse[order[i] as int] == i,
    ensures
        permuted(permuted(axes, order), inverse) == axes,
{
    law_inverse_undoes_the_order(order, inverse);
    assert(permuted(permuted(axes, order), inverse) =~= axes);
}

/// Whether `a` appears in `order`.
pub open spec fn appears(order: Seq<usize>, a: int) -> bool {
    exists|i: int| 0 <= i < order.len() && order[i] == a
}

/// Every axis below the rank appears in a permutation.
pub proof fn lemma_permutation_is_onto(order: Seq<usize>)
    requires
        is_permutation(order, order.len()),
    ensures
        forall|a: int| 0 <= a < order.len() ==> #[trigger] appears(order, a),
{
    let n = order.len();
    // The positions map injectively into `0..n`, so they cover it.
    let mapped = order.map_values(|v: usize| v as int);
    assert(mapped.no_duplicates()) by {
        assert forall|i: int, j: int| 0 <= i < mapped.len() && 0 <= j < mapped.len() && i != j
            implies mapped[i] != mapped[j] by {
            if i < j {
                assert(order[i] != order[j]);
            } else {
                assert(order[j] != order[i]);
            }
        }
    }
    mapped.unique_seq_to_set();
    let image = mapped.to_set();
    let range = vstd::set_lib::set_int_range(0, n as int);
    vstd::set_lib::lemma_int_range(0, n as int);
    assert forall|a: int| 0 <= a < n implies #[trigger] appears(order, a) by {
        if !appears(order, a) {
            assert(image.subset_of(range.remove(a))) by {
                assert forall|v: int| image.contains(v) implies range.remove(a).contains(v) by {
                    let i = choose|i: int| 0 <= i < mapped.len() && #[trigger] mapped[i] == v;
                    assert(order[i] as int == v);
                }
            }
            assert(range.contains(a));
            vstd::set_lib::lemma_len_subset(image, range.remove(a));
        }
    }
}

} // verus!
