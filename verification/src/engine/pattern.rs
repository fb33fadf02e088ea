use vstd::prelude::*;

use crate::tensor::{pools, window_product_fits, windowed_product_by, Tensor};

verus! {

/// A matched window-GEMM group: the `matmul` node computes the windowed
/// product directly from the source, and the im2col chain between them
/// -- pads, unfolds, permute, reshape -- is never materialized.
#[derive(Debug, Clone, Copy, PartialEq, Eq, Structural)]
pub struct WindowProduct {
    /// The rank-4 `[batch, channels, height, width]` source.
    pub source: usize,
    /// The GEMM-shaped `[columns, filters]` kernel operand.
    pub kernel: usize,
    /// The kernel's height.
    pub kernel_height: usize,
    /// The kernel's width.
    pub kernel_width: usize,
    /// The window step along both spatial axes.
    pub stride: usize,
    /// The symmetric zero padding folded into the call.
    pub padding: usize,
}

impl WindowProduct {
    /// Returns the slots the fused call reads past the root's operand
    /// links; liveness must keep them alive until the call.
    pub fn reads(&self) -> (reads: [usize; 2])
        ensures
            reads@ == seq![self.source, self.kernel],
    {
        let reads = [self.source, self.kernel];
        assert(reads@ =~= seq![self.source, self.kernel]);
        reads
    }

    /// Computes the fused call over the already-evaluated `values`: one
    /// windowed product from the source and kernel, the im2col chain
    /// between them never materialized.
    pub fn apply<Element: Copy, M: Fn(&Element, &Element) -> Element, A: Fn(&Element, &Element) -> Element>(
        &self,
        values: &[Tensor<Element>],
        zero: Element,
        multiply: M,
        add: A,
    ) -> (product: Tensor<Element>)
        requires
            self.source < values@.len(),
            self.kernel < values@.len(),
            window_product_fits(
                values@[self.source as int].shape_spec(),
                values@[self.kernel as int].shape_spec(),
                self.kernel_height,
                self.kernel_width,
                self.stride,
                self.padding,
            ),
            forall|a: Element, b: Element| #[trigger] multiply.requires((&a, &b)),
            forall|a: Element, b: Element| #[trigger] add.requires((&a, &b)),
        ensures
            windowed_product_by(
                values@[self.source as int],
                values@[self.kernel as int],
                self.kernel_height,
                self.kernel_width,
                self.stride,
                self.padding,
                zero,
                multiply,
                add,
                product,
            ),
    {
        values[self.source].windowed_product(
            &values[self.kernel],
            self.kernel_height,
            self.kernel_width,
            self.stride,
            self.padding,
            zero,
            multiply,
            add,
        )
    }
}

/// A matched max-pool window group: the recorded left fold of `maximum`
/// over the window lanes, rooted at the facade's squeeze reshape.
#[derive(Debug, Clone, Copy, PartialEq, Eq, Structural)]
pub struct ReduceWindow {
    /// The rank-4 `[batch, channels, height, width]` source.
    pub source: usize,
    /// The square window extent along both spatial axes.
    pub size: usize,
    /// The window step along both spatial axes.
    pub stride: usize,
}

impl ReduceWindow {
    /// Returns the slots the fused call reads past the root's operand
    /// links.
    pub fn reads(&self) -> (reads: [usize; 1])
        ensures
            reads@ == seq![self.source],
    {
        let reads = [self.source];
        assert(reads@ =~= seq![self.source]);
        reads
    }

    /// Computes the fused call over the already-evaluated `values`: one
    /// direct window walk from the source, folding each window with
    /// `maximum` in lane order.
    pub fn apply<Element: Copy, F: Fn(&Element, &Element) -> Element>(
        &self,
        values: &[Tensor<Element>],
        maximum: F,
    ) -> (pooled: Tensor<Element>)
        requires
            self.source < values@.len(),
            values@[self.source as int].shape_spec().len() == 4,
            self.size > 0,
            self.stride > 0,
            self.size <= values@[self.source as int].shape_spec()[2],
            self.size <= values@[self.source as int].shape_spec()[3],
            forall|a: Element, b: Element| #[trigger] maximum.requires((&a, &b)),
        ensures
            pools(values@[self.source as int], self.size, self.stride, maximum, pooled),
    {
        values[self.source].max_pooled(self.size, self.stride, maximum)
    }
}

/// A matched batch normalization: the recorded normalization diamond
/// -- centering, the epsilon-stabilized deviation, the learned affine
/// -- rooted at the trailing shift `Add`.
#[derive(Debug, Clone, Copy, PartialEq, Eq, Structural)]
pub struct BatchNormalization {
    /// The rank-2 `[batch, features]` input.
    pub input: usize,
    /// The rank-1 `[features]` learned scale.
    pub scale: usize,
    /// The rank-1 `[features]` learned shift.
    pub shift: usize,
    /// The single-value epsilon leaf.
    pub epsilon: usize,
    /// The `[features]` mean: a named result in training, a supplied
    /// extra read in inference.
    pub mean: usize,
    /// The `[features]` biased variance: a named result in training, a
    /// supplied extra read in inference.
    pub variance: usize,
}

impl BatchNormalization {
    /// Returns the slots the fused call reads past the root's operand
    /// links.
    pub fn reads(&self) -> (reads: [usize; 4])
        ensures
            reads@ == seq![self.input, self.scale, self.shift, self.epsilon],
    {
        let reads = [self.input, self.scale, self.shift, self.epsilon];
        assert(reads@ =~= seq![self.input, self.scale, self.shift, self.epsilon]);
        reads
    }
}

/// The vocabulary entry a pattern is the graph face of; consumers look
/// its coverage up under this name.
#[derive(Debug, Clone, Copy, PartialEq, Eq, Hash, Structural)]
pub enum Formula {
    /// The fused im2col product.
    WindowProduct,
    /// The window reduction.
    ReduceWindow,
    /// Batch normalization by the batch's own statistics.
    BatchNormTraining,
    /// Batch normalization by supplied statistics.
    BatchNormInference,
}

/// A recognized pattern rooted at one plan node: a compile-time match
/// over frozen structure, not a tape rewrite, carrying no policy.
#[derive(Debug, Clone, Copy, PartialEq, Eq, Structural)]
pub enum Pattern {
    /// Canonical im2col chain feeding a rank-2 `matmul`.
    WindowProduct(WindowProduct),
    /// Canonical max-pool window fold ending in the facade squeeze.
    ReduceWindow(ReduceWindow),
    /// Batch normalization by the batch's own statistics, with the mean
    /// and variance as named results.
    BatchNormTraining(BatchNormalization),
    /// Batch normalization by supplied statistics.
    BatchNormInference(BatchNormalization),
}

impl Pattern {
    /// The formula a pattern is the graph face of.
    pub open spec fn formula_spec(self) -> Formula {
        match self {
            Pattern::WindowProduct(_) => Formula::WindowProduct,
            Pattern::ReduceWindow(_) => Formula::ReduceWindow,
            Pattern::BatchNormTraining(_) => Formula::BatchNormTraining,
            Pattern::BatchNormInference(_) => Formula::BatchNormInference,
        }
    }

    /// Returns the vocabulary entry this pattern is the graph face of.
    pub fn formula(&self) -> (formula: Formula)
        ensures
            formula == self.formula_spec(),
    {
        match self {
            Pattern::WindowProduct(_) => Formula::WindowProduct,
            Pattern::ReduceWindow(_) => Formula::ReduceWindow,
            Pattern::BatchNormTraining(_) => Formula::BatchNormTraining,
            Pattern::BatchNormInference(_) => Formula::BatchNormInference,
        }
    }
}

} // verus!
