//! Sums and products over a range of axes, and their invariance under
//! reordering the axes: what a permuted view needs to know of its
//! volume, its reach and its addresses.

use vstd::prelude::*;

use crate::layout::{dot_from, reach_from};
use crate::op::permute::{appears, is_permutation, lemma_permutation_is_onto, permuted};
use crate::shape::{all_positive, fits, suffix_product, volume_of};

verus! {

/// The sum of `f` over `lo..hi`.
pub open spec fn sum_over(f: spec_fn(int) -> int, lo: int, hi: int) -> int
    decreases hi - lo,
{
    if lo >= hi {
        0
    } else {
        f(lo) + sum_over(f, lo + 1, hi)
    }
}

/// The product of `f` over `lo..hi`.
pub open spec fn product_over(f: spec_fn(int) -> int, lo: int, hi: int) -> int
    decreases hi - lo,
{
    if lo >= hi {
        1
    } else {
        f(lo) * product_over(f, lo + 1, hi)
    }
}

/// Whether axis `a` is among `order[lo..hi]`.
pub open spec fn among(order: Seq<usize>, lo: int, hi: int, a: int) -> bool {
    exists|i: int| lo <= i < hi && order[i] == a
}

/// Whether `order[lo..hi]` names distinct axes below `rank`.
pub open spec fn distinct_below(order: Seq<usize>, lo: int, hi: int, rank: int) -> bool {
    &&& 0 <= lo <= hi <= order.len()
    &&& forall|i: int| lo <= i < hi ==> #[trigger] order[i] < rank
    &&& forall|i: int, j: int| lo <= i < j < hi ==> order[i] != order[j]
}

/// `f` read through `order`: position `i` takes `f` of axis `order[i]`.
pub open spec fn through(f: spec_fn(int) -> int, order: Seq<usize>) -> spec_fn(int) -> int {
    |i: int| f(order[i] as int)
}

/// `f` on the axes among `order[lo..hi]`, zero elsewhere.
pub open spec fn kept_sum(f: spec_fn(int) -> int, order: Seq<usize>, lo: int, hi: int) -> spec_fn(int) -> int {
    |a: int| if among(order, lo, hi, a) { f(a) } else { 0 }
}

/// `f` on the axes among `order[lo..hi]`, one elsewhere.
pub open spec fn kept_product(f: spec_fn(int) -> int, order: Seq<usize>, lo: int, hi: int) -> spec_fn(int) -> int {
    |a: int| if among(order, lo, hi, a) { f(a) } else { 1 }
}

/// Extending a sum by one term adds that term.
pub proof fn lemma_sum_top(f: spec_fn(int) -> int, lo: int, hi: int)
    requires
        lo <= hi,
    ensures
        sum_over(f, lo, hi + 1) == sum_over(f, lo, hi) + f(hi),
    decreases hi - lo,
{
    if lo < hi {
        lemma_sum_top(f, lo + 1, hi);
        assert(sum_over(f, lo, hi + 1) == f(lo) + sum_over(f, lo + 1, hi + 1));
        assert(sum_over(f, lo, hi) == f(lo) + sum_over(f, lo + 1, hi));
    } else {
        assert(sum_over(f, lo + 1, hi + 1) == 0);
    }
}

/// Extending a product by one factor multiplies by that factor.
pub proof fn lemma_product_top(f: spec_fn(int) -> int, lo: int, hi: int)
    requires
        lo <= hi,
    ensures
        product_over(f, lo, hi + 1) == product_over(f, lo, hi) * f(hi),
    decreases hi - lo,
{
    if lo < hi {
        lemma_product_top(f, lo + 1, hi);
        let rest = product_over(f, lo + 1, hi);
        assert(product_over(f, lo, hi + 1) == f(lo) * product_over(f, lo + 1, hi + 1));
        assert(product_over(f, lo, hi) == f(lo) * rest);
        let head = f(lo);
        let last = f(hi);
        assert(head * (rest * last) == (head * rest) * last) by (nonlinear_arith);
        assert(product_over(f, lo + 1, hi + 1) == rest * last);
        assert(product_over(f, lo, hi + 1) == head * (rest * last));
    } else {
        assert(product_over(f, lo + 1, hi + 1) == 1);
        assert(product_over(f, lo, hi + 1) == f(lo) * 1);
        assert(product_over(f, lo, hi) == 1);
    }
}

/// Sums of functions that agree on the range agree.
pub proof fn lemma_sum_congruent(f: spec_fn(int) -> int, g: spec_fn(int) -> int, lo: int, hi: int)
    requires
        forall|i: int| lo <= i < hi ==> #[trigger] f(i) == g(i),
    ensures
        sum_over(f, lo, hi) == sum_over(g, lo, hi),
    decreases hi - lo,
{
    if lo < hi {
        lemma_sum_congruent(f, g, lo + 1, hi);
    }
}

/// Products of functions that agree on the range agree.
pub proof fn lemma_product_congruent(f: spec_fn(int) -> int, g: spec_fn(int) -> int, lo: int, hi: int)
    requires
        forall|i: int| lo <= i < hi ==> #[trigger] f(i) == g(i),
    ensures
        product_over(f, lo, hi) == product_over(g, lo, hi),
    decreases hi - lo,
{
    if lo < hi {
        lemma_product_congruent(f, g, lo + 1, hi);
    }
}

/// Changing one term of a sum changes the sum by the difference.
proof fn lemma_sum_bump(f: spec_fn(int) -> int, g: spec_fn(int) -> int, lo: int, hi: int, b: int)
    requires
        lo <= b < hi,
        forall|i: int| lo <= i < hi && i != b ==> #[trigger] f(i) == g(i),
    ensures
        sum_over(g, lo, hi) == sum_over(f, lo, hi) + g(b) - f(b),
    decreases hi - lo,
{
    if lo == b {
        lemma_sum_congruent(f, g, lo + 1, hi);
    } else {
        lemma_sum_bump(f, g, lo + 1, hi, b);
    }
}

/// Changing a unit factor of a product to `g(b)` multiplies the product
/// by `g(b)`.
proof fn lemma_product_bump(f: spec_fn(int) -> int, g: spec_fn(int) -> int, lo: int, hi: int, b: int)
    requires
        lo <= b < hi,
        f(b) == 1,
        forall|i: int| lo <= i < hi && i != b ==> #[trigger] f(i) == g(i),
    ensures
        product_over(g, lo, hi) == product_over(f, lo, hi) * g(b),
    decreases hi - lo,
{
    if lo == b {
        lemma_product_congruent(f, g, lo + 1, hi);
        let rest = product_over(f, lo + 1, hi);
        assert(g(b) * rest == (1 * rest) * g(b)) by (nonlinear_arith);
    } else {
        lemma_product_bump(f, g, lo + 1, hi, b);
        let rest = product_over(f, lo + 1, hi);
        assert(f(lo) * (rest * g(b)) == (f(lo) * rest) * g(b)) by (nonlinear_arith);
    }
}

/// A sum of zeros is zero.
proof fn lemma_sum_vanishes(f: spec_fn(int) -> int, lo: int, hi: int)
    requires
        forall|i: int| lo <= i < hi ==> #[trigger] f(i) == 0,
    ensures
        sum_over(f, lo, hi) == 0,
    decreases hi - lo,
{
    if lo < hi {
        lemma_sum_vanishes(f, lo + 1, hi);
    }
}

/// A product of ones is one.
proof fn lemma_product_unit(f: spec_fn(int) -> int, lo: int, hi: int)
    requires
        forall|i: int| lo <= i < hi ==> #[trigger] f(i) == 1,
    ensures
        product_over(f, lo, hi) == 1,
    decreases hi - lo,
{
    if lo < hi {
        lemma_product_unit(f, lo + 1, hi);
    }
}

/// Summing `f` through distinct axes `order[lo..hi]` sums `f` over the
/// axes they name.
pub proof fn lemma_sum_image(f: spec_fn(int) -> int, order: Seq<usize>, lo: int, hi: int, rank: int)
    requires
        distinct_below(order, lo, hi, rank),
    ensures
        sum_over(through(f, order), lo, hi) == sum_over(kept_sum(f, order, lo, hi), 0, rank),
    decreases hi - lo,
{
    if lo == hi {
        assert forall|a: int| 0 <= a < rank implies #[trigger] kept_sum(f, order, lo, hi)(a) == 0 by {
            assert(!among(order, lo, hi, a));
        }
        lemma_sum_vanishes(kept_sum(f, order, lo, hi), 0, rank);
    } else {
        lemma_sum_image(f, order, lo, hi - 1, rank);
        lemma_sum_top(through(f, order), lo, hi - 1);
        let b = order[hi - 1] as int;
        let before = kept_sum(f, order, lo, hi - 1);
        let after = kept_sum(f, order, lo, hi);
        assert(!among(order, lo, hi - 1, b)) by {
            if among(order, lo, hi - 1, b) {
                let i = choose|i: int| lo <= i < hi - 1 && order[i] == b;
                assert(order[i] != order[hi - 1]);
            }
        }
        assert(among(order, lo, hi, b)) by {
            assert(lo <= hi - 1 < hi && order[hi - 1] == b);
        }
        assert forall|a: int| 0 <= a < rank && a != b implies #[trigger] before(a) == after(a) by {
            if among(order, lo, hi, a) {
                let i = choose|i: int| lo <= i < hi && order[i] == a;
                assert(i != hi - 1);
                assert(among(order, lo, hi - 1, a));
            }
            if among(order, lo, hi - 1, a) {
                let i = choose|i: int| lo <= i < hi - 1 && order[i] == a;
                assert(among(order, lo, hi, a));
            }
        }
        lemma_sum_bump(before, after, 0, rank, b);
    }
}

/// Multiplying `f` through distinct axes `order[lo..hi]` multiplies `f`
/// over the axes they name.
pub proof fn lemma_product_image(f: spec_fn(int) -> int, order: Seq<usize>, lo: int, hi: int, rank: int)
    requires
        distinct_below(order, lo, hi, rank),
    ensures
        product_over(through(f, order), lo, hi) == product_over(kept_product(f, order, lo, hi), 0, rank),
    decreases hi - lo,
{
    if lo == hi {
        assert forall|a: int| 0 <= a < rank implies #[trigger] kept_product(f, order, lo, hi)(a) == 1 by {
            assert(!among(order, lo, hi, a));
        }
        lemma_product_unit(kept_product(f, order, lo, hi), 0, rank);
    } else {
        lemma_product_image(f, order, lo, hi - 1, rank);
        lemma_product_top(through(f, order), lo, hi - 1);
        let b = order[hi - 1] as int;
        let before = kept_product(f, order, lo, hi - 1);
        let after = kept_product(f, order, lo, hi);
        assert(!among(order, lo, hi - 1, b)) by {
            if among(order, lo, hi - 1, b) {
                let i = choose|i: int| lo <= i < hi - 1 && order[i] == b;
                assert(order[i] != order[hi - 1]);
            }
        }
        assert(among(order, lo, hi, b)) by {
            assert(lo <= hi - 1 < hi && order[hi - 1] == b);
        }
        assert forall|a: int| 0 <= a < rank && a != b implies #[trigger] before(a) == after(a) by {
            if among(order, lo, hi, a) {
                let i = choose|i: int| lo <= i < hi && order[i] == a;
                assert(i != hi - 1);
                assert(among(order, lo, hi - 1, a));
            }
            if among(order, lo, hi - 1, a) {
                let i = choose|i: int| lo <= i < hi - 1 && order[i] == a;
                assert(among(order, lo, hi, a));
            }
        }
        lemma_product_bump(before, after, 0, rank, b);
    }
}

/// A product of factors each between one and its bound is at least one
/// and at most the product of the bounds.
pub proof fn lemma_product_bounded(g: spec_fn(int) -> int, f: spec_fn(int) -> int, lo: int, hi: int)
    requires
        forall|i: int| lo <= i < hi ==> 1 <= #[trigger] g(i) <= f(i),
    ensures
        1 <= product_over(g, lo, hi) <= product_over(f, lo, hi),
    decreases hi - lo,
{
    if lo < hi {
        lemma_product_bounded(g, f, lo + 1, hi);
        let small = product_over(g, lo + 1, hi);
        let large = product_over(f, lo + 1, hi);
        let x = g(lo);
        let y = f(lo);
        assert(1 <= x * small <= y * large) by (nonlinear_arith)
            requires 1 <= x <= y, 1 <= small <= large;
    }
}

/// The extents of `axes` as a function of the axis.
pub open spec fn extent_of(axes: Seq<usize>) -> spec_fn(int) -> int {
    |i: int| axes[i] as int
}

/// The reach term of every axis: `(extent - 1) * stride`.
pub open spec fn reach_term(axes: Seq<usize>, strides: Seq<usize>) -> spec_fn(int) -> int {
    |i: int| (axes[i] - 1) * strides[i]
}

/// The address term of every axis: coordinate times stride.
pub open spec fn dot_term(index: Seq<nat>, strides: Seq<usize>) -> spec_fn(int) -> int {
    |i: int| index[i] * strides[i]
}

/// A suffix product is the product of the extents from `k` on.
pub proof fn lemma_suffix_is_product(axes: Seq<usize>, k: int)
    requires
        0 <= k <= axes.len(),
    ensures
        suffix_product(axes, k) == product_over(extent_of(axes), k, axes.len() as int),
    decreases axes.len() - k,
{
    if k < axes.len() {
        lemma_suffix_is_product(axes, k + 1);
    }
}

/// The reach from axis `k` is the sum of the reach terms from `k` on.
pub proof fn lemma_reach_is_sum(axes: Seq<usize>, strides: Seq<usize>, k: int)
    requires
        0 <= k <= axes.len(),
    ensures
        reach_from(axes, strides, k) == sum_over(reach_term(axes, strides), k, axes.len() as int),
    decreases axes.len() - k,
{
    if k < axes.len() {
        lemma_reach_is_sum(axes, strides, k + 1);
    }
}

/// The dot product from axis `k` is the sum of the address terms from
/// `k` on.
pub proof fn lemma_dot_is_sum(index: Seq<nat>, strides: Seq<usize>, k: int)
    requires
        0 <= k <= index.len(),
    ensures
        dot_from(index, strides, k) == sum_over(dot_term(index, strides), k, index.len() as int),
    decreases index.len() - k,
{
    if k < index.len() {
        lemma_dot_is_sum(index, strides, k + 1);
    }
}

/// The axes a permutation keeps from position `lo` on are distinct and in
/// range.
proof fn lemma_permutation_distinct(order: Seq<usize>, lo: int)
    requires
        is_permutation(order, order.len()),
        0 <= lo <= order.len(),
    ensures
        distinct_below(order, lo, order.len() as int, order.len() as int),
{
}

/// A whole permutation keeps every axis.
proof fn lemma_permutation_keeps_all(order: Seq<usize>)
    requires
        is_permutation(order, order.len()),
    ensures
        forall|a: int| 0 <= a < order.len() ==> #[trigger] among(order, 0, order.len() as int, a),
{
    lemma_permutation_is_onto(order);
    assert forall|a: int| 0 <= a < order.len() implies #[trigger] among(order, 0, order.len() as int, a) by {
        assert(appears(order, a));
    }
}

/// Reordering the axes keeps a representable shape representable, with
/// the same volume and positive extents.
pub proof fn lemma_permuted_fits(axes: Seq<usize>, order: Seq<usize>)
    requires
        is_permutation(order, axes.len()),
        all_positive(axes),
        fits(axes),
    ensures
        fits(permuted(axes, order)),
        all_positive(permuted(axes, order)),
        volume_of(permuted(axes, order)) == volume_of(axes),
{
    let n = axes.len() as int;
    let moved = permuted(axes, order);
    let extent = extent_of(axes);
    lemma_suffix_is_product(axes, 0);
    assert forall|k: int| 0 <= k <= moved.len() implies #[trigger] suffix_product(moved, k) <= suffix_product(axes, 0) by {
        lemma_suffix_is_product(moved, k);
        lemma_product_congruent(extent_of(moved), through(extent, order), k, n);
        lemma_permutation_distinct(order, k);
        lemma_product_image(extent, order, k, n, n);
        assert forall|a: int| 0 <= a < n implies 1 <= #[trigger] kept_product(extent, order, k, n)(a) <= extent(a) by {
            assert(axes[a] > 0);
        }
        lemma_product_bounded(kept_product(extent, order, k, n), extent, 0, n);
    }
    assert(suffix_product(axes, 0) <= usize::MAX);
    lemma_suffix_is_product(moved, 0);
    lemma_product_congruent(extent_of(moved), through(extent, order), 0, n);
    lemma_permutation_distinct(order, 0);
    lemma_product_image(extent, order, 0, n, n);
    lemma_permutation_keeps_all(order);
    lemma_product_congruent(kept_product(extent, order, 0, n), extent, 0, n);
    assert forall|k: int| 0 <= k < moved.len() implies #[trigger] moved[k] > 0 by {
        assert(axes[order[k] as int] > 0);
    }
}

/// Reordering the axes and the strides together keeps the reach.
pub proof fn lemma_permuted_reach(axes: Seq<usize>, strides: Seq<usize>, order: Seq<usize>)
    requires
        is_permutation(order, axes.len()),
        strides.len() == axes.len(),
    ensures
        reach_from(permuted(axes, order), permuted(strides, order), 0) == reach_from(axes, strides, 0),
{
    let n = axes.len() as int;
    let term = reach_term(axes, strides);
    lemma_reach_is_sum(axes, strides, 0);
    lemma_reach_is_sum(permuted(axes, order), permuted(strides, order), 0);
    lemma_sum_congruent(reach_term(permuted(axes, order), permuted(strides, order)), through(term, order), 0, n);
    lemma_permutation_distinct(order, 0);
    lemma_sum_image(term, order, 0, n, n);
    lemma_permutation_keeps_all(order);
    lemma_sum_congruent(kept_sum(term, order, 0, n), term, 0, n);
}

/// The address of a multi-index of the reordered axes under the
/// reordered strides is the address of the multi-index it came from.
pub proof fn lemma_permuted_dot(moved: Seq<nat>, index: Seq<nat>, strides: Seq<usize>, order: Seq<usize>)
    requires
        is_permutation(order, index.len()),
        strides.len() == index.len(),
        moved.len() == index.len(),
        forall|i: int| 0 <= i < order.len() ==> #[trigger] moved[i] == index[order[i] as int],
    ensures
        dot_from(moved, permuted(strides, order), 0) == dot_from(index, strides, 0),
{
    let n = index.len() as int;
    let term = dot_term(index, strides);
    lemma_dot_is_sum(index, strides, 0);
    lemma_dot_is_sum(moved, permuted(strides, order), 0);
    lemma_sum_congruent(dot_term(moved, permuted(strides, order)), through(term, order), 0, n);
    lemma_permutation_distinct(order, 0);
    lemma_sum_image(term, order, 0, n, n);
    lemma_permutation_keeps_all(order);
    lemma_sum_congruent(kept_sum(term, order, 0, n), term, 0, n);
}

} // verus!
