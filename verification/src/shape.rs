//! The runtime shape of a payload: its extent along every axis.

use vstd::prelude::*;

verus! {

/// The product of the extents from axis `k` to the last: the number of
/// elements one step along axis `k - 1` skips in row-major order. It is
/// one past the last axis.
pub open spec fn suffix_product(axes: Seq<usize>, k: int) -> nat
    decreases axes.len() - k,
{
    if k >= axes.len() {
        1
    } else {
        (axes[k] as nat) * suffix_product(axes, k + 1)
    }
}

/// The number of elements of a shape: the product of all its extents.
pub open spec fn volume_of(axes: Seq<usize>) -> nat {
    suffix_product(axes, 0)
}

/// Whether every suffix product of `axes`, the volume among them, is
/// representable in `usize`.
pub open spec fn fits(axes: Seq<usize>) -> bool {
    forall|k: int| 0 <= k <= axes.len() ==> #[trigger] suffix_product(axes, k) <= usize::MAX
}

/// Whether every extent of `axes` is positive.
pub open spec fn all_positive(axes: Seq<usize>) -> bool {
    forall|k: int| 0 <= k < axes.len() ==> #[trigger] axes[k] > 0
}

/// A suffix product never exceeds the one to its left when the extent
/// in between is positive, and stays positive over positive extents.
pub proof fn lemma_suffix_product_monotone(axes: Seq<usize>, j: int, k: int)
    requires
        0 <= j <= k,
        all_positive(axes),
    ensures
        suffix_product(axes, k) <= suffix_product(axes, j),
        suffix_product(axes, k) > 0,
    decreases k - j,
{
    if j < k {
        lemma_suffix_product_monotone(axes, j + 1, k);
        if j < axes.len() {
            assert(axes[j] > 0);
            vstd::arithmetic::mul::lemma_mul_inequality(1, axes[j] as int, suffix_product(axes, j + 1) as int);
        }
    } else {
        lemma_suffix_product_positive(axes, k);
    }
}

/// Every suffix product over positive extents is positive.
pub proof fn lemma_suffix_product_positive(axes: Seq<usize>, k: int)
    requires
        0 <= k,
        all_positive(axes),
    ensures
        suffix_product(axes, k) > 0,
    decreases axes.len() - k,
{
    if k < axes.len() {
        lemma_suffix_product_positive(axes, k + 1);
        assert(axes[k] > 0);
        vstd::arithmetic::mul::lemma_mul_strictly_positive(axes[k] as int, suffix_product(axes, k + 1) as int);
    }
}

/// The product of the extents before axis `k`.
pub open spec fn prefix_product(axes: Seq<usize>, k: int) -> nat
    decreases k,
{
    if k <= 0 {
        1
    } else {
        prefix_product(axes, k - 1) * (axes[k - 1] as nat)
    }
}

/// The volume splits at every axis into the extents before it and the
/// extents from it on.
pub proof fn lemma_volume_split(axes: Seq<usize>, k: int)
    requires
        0 <= k <= axes.len(),
    ensures
        volume_of(axes) == prefix_product(axes, k) * suffix_product(axes, k),
    decreases k,
{
    if k > 0 {
        lemma_volume_split(axes, k - 1);
        let before = prefix_product(axes, k - 1);
        let extent = axes[k - 1] as nat;
        let after = suffix_product(axes, k);
        assert(suffix_product(axes, k - 1) == extent * after);
        assert(before * (extent * after) == (before * extent) * after) by (nonlinear_arith);
        assert(prefix_product(axes, k) == before * extent);
    } else {
        assert(prefix_product(axes, k) == 1);
        assert(1 * suffix_product(axes, k) == suffix_product(axes, k));
    }
}

/// The extents before axis one are the first extent.
pub proof fn lemma_prefix_first(axes: Seq<usize>)
    requires
        axes.len() >= 1,
    ensures
        prefix_product(axes, 1) == axes[0] as nat,
{
    assert(prefix_product(axes, 0) == 1);
    assert(prefix_product(axes, 1) == prefix_product(axes, 0) * (axes[0] as nat));
}

/// Prefix products read only the extents before their axis.
pub proof fn lemma_prefix_same_head(axes: Seq<usize>, other: Seq<usize>, k: int)
    requires
        forall|j: int| 0 <= j < k ==> #[trigger] axes[j] == other[j],
    ensures
        prefix_product(axes, k) == prefix_product(other, k),
    decreases k,
{
    if k > 0 {
        lemma_prefix_same_head(axes, other, k - 1);
    }
}

/// Removing an axis shifts the suffix products past it down by one.
pub proof fn lemma_suffix_same_shift(axes: Seq<usize>, removed: Seq<usize>, k: int)
    requires
        1 <= k <= axes.len(),
        removed.len() + 1 == axes.len(),
        forall|j: int| k <= j < axes.len() ==> #[trigger] axes[j] == removed[j - 1],
    ensures
        suffix_product(axes, k) == suffix_product(removed, k - 1),
    decreases axes.len() - k,
{
    if k < axes.len() {
        lemma_suffix_same_shift(axes, removed, k + 1);
    }
}

/// Suffix products read only the extents from their axis on.
pub proof fn lemma_suffix_same_tail(axes: Seq<usize>, other: Seq<usize>, k: int)
    requires
        0 <= k,
        axes.len() == other.len(),
        forall|j: int| k <= j < axes.len() ==> #[trigger] axes[j] == other[j],
    ensures
        suffix_product(axes, k) == suffix_product(other, k),
    decreases axes.len() - k,
{
    if k < axes.len() {
        lemma_suffix_same_tail(axes, other, k + 1);
    }
}

/// Over positive extents, a representable volume makes every suffix
/// product representable.
pub proof fn lemma_fits_from_volume(axes: Seq<usize>)
    requires
        all_positive(axes),
        volume_of(axes) <= usize::MAX,
    ensures
        fits(axes),
{
    assert forall|k: int| 0 <= k <= axes.len() implies #[trigger] suffix_product(axes, k) <= usize::MAX by {
        lemma_suffix_product_monotone(axes, 0, k);
    }
}

/// Inserting an extent-one axis at `k` keeps every suffix product up to
/// `k` and shifts the ones past it by one position.
pub proof fn lemma_unit_axis_suffix(axes: Seq<usize>, k: int, j: int)
    requires
        0 <= k <= axes.len(),
        0 <= j <= axes.len() + 1,
    ensures
        suffix_product(axes.insert(k, 1), j) == if j <= k {
            suffix_product(axes, j)
        } else {
            suffix_product(axes, j - 1)
        },
    decreases axes.len() + 1 - j,
{
    let longer = axes.insert(k, 1);
    if j <= axes.len() {
        lemma_unit_axis_suffix(axes, k, j + 1);
        if j < k {
            assert(longer[j] == axes[j]);
        } else if j == k {
            assert(longer[j] == 1);
        } else {
            assert(longer[j] == axes[j - 1]);
        }
    }
}

/// An extent-one axis changes neither the volume of a shape nor whether
/// its volume is representable.
pub proof fn lemma_unit_axis(axes: Seq<usize>, k: int)
    requires
        0 <= k <= axes.len(),
    ensures
        volume_of(axes.insert(k, 1)) == volume_of(axes),
        fits(axes.insert(k, 1)) == fits(axes),
{
    let longer = axes.insert(k, 1);
    lemma_unit_axis_suffix(axes, k, 0);
    if fits(axes) {
        assert forall|j: int| 0 <= j <= longer.len() implies #[trigger] suffix_product(longer, j) <= usize::MAX by {
            lemma_unit_axis_suffix(axes, k, j);
            if j > k {
                assert(suffix_product(axes, j - 1) <= usize::MAX);
            } else {
                assert(suffix_product(axes, j) <= usize::MAX);
            }
        }
    }
    if fits(longer) {
        assert forall|j: int| 0 <= j <= axes.len() implies #[trigger] suffix_product(axes, j) <= usize::MAX by {
            if j < k {
                lemma_unit_axis_suffix(axes, k, j);
                assert(suffix_product(longer, j) <= usize::MAX);
            } else {
                lemma_unit_axis_suffix(axes, k, j + 1);
                assert(suffix_product(longer, j + 1) <= usize::MAX);
            }
        }
    }
}

/// Removing an extent-one axis changes neither the volume of a shape nor
/// whether its volume is representable.
pub proof fn lemma_unit_axis_removed(axes: Seq<usize>, k: int)
    requires
        0 <= k < axes.len(),
        axes[k] == 1,
    ensures
        volume_of(axes.remove(k)) == volume_of(axes),
        fits(axes.remove(k)) == fits(axes),
{
    assert(axes.remove(k).insert(k, 1) =~= axes);
    lemma_unit_axis(axes.remove(k), k);
}

/// The extent of a payload along every axis: `[]` is a scalar,
/// `[rows, columns]` a matrix.
///
/// Shapes are immutable values; every shape-changing operation answers
/// a new one.
#[derive(Debug)]
pub struct Shape {
    axes: Vec<usize>,
}

impl View for Shape {
    type V = Seq<usize>;

    closed spec fn view(&self) -> Seq<usize> {
        self.axes@
    }
}

impl Shape {
    /// Creates the shape with the given extents, outermost first.
    pub fn new(axes: Vec<usize>) -> (shape: Shape)
        ensures
            shape@ == axes@,
    {
        Shape { axes }
    }

    /// Creates the rank-0 shape of a single value.
    pub fn scalar() -> (shape: Shape)
        ensures
            shape@ == Seq::<usize>::empty(),
    {
        Shape { axes: Vec::new() }
    }

    /// Returns the extents, outermost first.
    pub fn axes(&self) -> (axes: &[usize])
        ensures
            axes@ == self@,
    {
        self.axes.as_slice()
    }

    /// Returns the number of axes.
    pub fn rank(&self) -> (rank: usize)
        ensures
            rank == self@.len(),
    {
        self.axes.len()
    }

    /// Returns the extent along `axis`.
    pub fn extent(&self, axis: usize) -> (extent: usize)
        requires
            axis < self@.len(),
        ensures
            extent == self@[axis as int],
    {
        self.axes[axis]
    }

    /// Returns the number of elements, or `None` when a product of the
    /// trailing extents leaves `usize`.
    ///
    /// The product runs from the innermost axis outwards, so `None`
    /// answers exactly the shapes with some unrepresentable suffix
    /// product.
    pub fn checked_volume(&self) -> (volume: Option<usize>)
        ensures
            volume is Some <==> fits(self@),
            volume matches Some(v) ==> v == volume_of(self@),
    {
        let mut running: usize = 1;
        let mut axis = self.axes.len();
        while axis > 0
            invariant
                axis <= self@.len(),
                running == suffix_product(self@, axis as int),
                forall|k: int| axis <= k <= self@.len() ==> #[trigger] suffix_product(self@, k) <= usize::MAX,
            decreases axis,
        {
            axis = axis - 1;
            let extent = self.axes[axis];
            match extent.checked_mul(running) {
                Some(product) => {
                    assert(product == self@[axis as int] * suffix_product(self@, axis + 1));
                    running = product;
                },
                None => {
                    assert(suffix_product(self@, axis as int) > usize::MAX);
                    return None;
                },
            }
        }
        Some(running)
    }

    /// Returns the number of elements: the product of the extents, one
    /// for a scalar.
    ///
    /// Every product of trailing extents is required to fit `usize`;
    /// an unrepresentable volume is a bug at the call site.
    pub fn volume(&self) -> (volume: usize)
        requires
            fits(self@),
        ensures
            volume == volume_of(self@),
    {
        self.checked_volume().expect("shape volume overflows `usize`")
    }

    /// Returns the shape with `axis` removed: what a reduction along
    /// that axis leaves.
    pub fn without_axis(&self, axis: usize) -> (shape: Shape)
        requires
            axis < self@.len(),
        ensures
            shape@ == self@.remove(axis as int),
    {
        let mut axes = self.axes.clone();
        assert(axes@ =~= self.axes@);
        axes.remove(axis);
        Shape { axes }
    }

    /// Returns whether `self` and `other` have the same extents.
    pub fn same_as(&self, other: &Shape) -> (same: bool)
        ensures
            same == (self@ == other@),
    {
        if self.axes.len() != other.axes.len() {
            return false;
        }
        let mut axis: usize = 0;
        while axis < self.axes.len()
            invariant
                self@.len() == other@.len(),
                axis <= self@.len(),
                forall|k: int| 0 <= k < axis ==> self@[k] == other@[k],
            decreases self@.len() - axis,
        {
            if self.axes[axis] != other.axes[axis] {
                return false;
            }
            axis = axis + 1;
        }
        assert(self@ =~= other@);
        true
    }
}

/// The decimal digit character of `digit`, below ten.
pub open spec fn digit_char(digit: nat) -> char {
    (48 + digit) as char
}

/// The decimal numeral of `n`, most significant digit first.
pub open spec fn decimal(n: nat) -> Seq<char>
    decreases n,
{
    if n < 10 {
        seq![digit_char(n)]
    } else {
        decimal(n / 10).push(digit_char(n % 10))
    }
}

/// The extents of `axes` as decimal numerals separated by `", "`.
pub open spec fn listed(axes: Seq<usize>) -> Seq<char>
    decreases axes.len(),
{
    if axes.len() == 0 {
        Seq::empty()
    } else if axes.len() == 1 {
        decimal(axes[0] as nat)
    } else {
        listed(axes.drop_last()) + seq![',', ' '] + decimal(axes.last() as nat)
    }
}

/// The text of a shape: its extents listed between square brackets,
/// `[3, 2]`, with `[]` for a scalar.
pub open spec fn shape_text(axes: Seq<usize>) -> Seq<char> {
    seq!['['] + listed(axes) + seq![']']
}

/// Returns the one-character text of the decimal digit `digit`.
fn digit_text(digit: usize) -> (text: &'static str)
    requires
        digit < 10,
    ensures
        text@ == seq![digit_char(digit as nat)],
{
    match digit {
        0 => {
            proof { reveal_strlit("0"); }
            "0"
        },
        1 => {
            proof { reveal_strlit("1"); }
            "1"
        },
        2 => {
            proof { reveal_strlit("2"); }
            "2"
        },
        3 => {
            proof { reveal_strlit("3"); }
            "3"
        },
        4 => {
            proof { reveal_strlit("4"); }
            "4"
        },
        5 => {
            proof { reveal_strlit("5"); }
            "5"
        },
        6 => {
            proof { reveal_strlit("6"); }
            "6"
        },
        7 => {
            proof { reveal_strlit("7"); }
            "7"
        },
        8 => {
            proof { reveal_strlit("8"); }
            "8"
        },
        _ => {
            proof { reveal_strlit("9"); }
            "9"
        },
    }
}

/// Appends the decimal numeral of `n` to `text`.
fn append_decimal(text: &mut String, n: usize)
    ensures
        final(text)@ == old(text)@ + decimal(n as nat),
    decreases n,
{
    if n >= 10 {
        append_decimal(text, n / 10);
    }
    text.append(digit_text(n % 10));
    proof {
        if n >= 10 {
            assert(decimal(n as nat) == decimal((n / 10) as nat).push(digit_char((n % 10) as nat)));
        }
    }
    assert(final(text)@ =~= old(text)@ + decimal(n as nat));
}

impl Shape {
    /// Returns the shape's text: its extents listed between square
    /// brackets, `[3, 2]`, and `[]` for a scalar.
    pub fn to_string(&self) -> (text: String)
        ensures
            text@ == shape_text(self@),
    {
        let axes = self.axes();
        let mut text = String::new();
        proof { reveal_strlit("["); }
        text.append("[");
        let mut axis: usize = 0;
        while axis < axes.len()
            invariant
                axes@ == self@,
                axis <= axes@.len(),
                text@ == seq!['['] + listed(axes@.take(axis as int)),
            decreases axes@.len() - axis,
        {
            let ghost before = text@;
            if axis > 0 {
                proof { reveal_strlit(", "); }
                text.append(", ");
            }
            append_decimal(&mut text, axes[axis]);
            proof {
                let taken = axes@.take(axis as int + 1);
                assert(taken.drop_last() =~= axes@.take(axis as int));
                assert(taken.last() == axes@[axis as int]);
                if axis == 0 {
                    assert(axes@.take(0) =~= Seq::<usize>::empty());
                }
            }
            axis += 1;
            assert(text@ =~= seq!['['] + listed(axes@.take(axis as int)));
        }
        proof { reveal_strlit("]"); }
        text.append("]");
        assert(axes@.take(axis as int) =~= axes@);
        assert(text@ =~= shape_text(self@));
        text
    }
}

impl Clone for Shape {
    fn clone(&self) -> (shape: Shape)
        ensures
            shape@ == self@,
    {
        let axes = self.axes.clone();
        assert(axes@ =~= self.axes@);
        Shape { axes }
    }
}

impl PartialEq for Shape {
    fn eq(&self, other: &Shape) -> (same: bool) {
        self.same_as(other)
    }
}

impl vstd::std_specs::cmp::PartialEqSpecImpl for Shape {
    open spec fn obeys_eq_spec() -> bool {
        true
    }

    open spec fn eq_spec(&self, other: &Shape) -> bool {
        self@ == other@
    }
}

impl Eq for Shape {
}

} // verus!
