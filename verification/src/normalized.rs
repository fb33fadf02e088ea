//! The batch-normalization task and its product: the composed formula's
//! whole-group face at the backend seam.

use vstd::prelude::*;

verus! {

/// One training-mode batch normalization over a contiguous
/// `[batch, features]` buffer: the fused form of the recorded formula --
/// center by the batch mean, scale by the epsilon-stabilized deviation,
/// apply the learned affine -- offered to a backend as a single task.
#[derive(Debug)]
pub struct BatchNormTask<'buffers, Element> {
    input: &'buffers [Element],
    scale: &'buffers [Element],
    shift: &'buffers [Element],
    epsilon: Element,
    batch: usize,
    features: usize,
}

impl<'buffers, Element> BatchNormTask<'buffers, Element> {
    /// The row-major `[batch, features]` input.
    pub closed spec fn input_spec(&self) -> Seq<Element> {
        self.input@
    }

    /// The `[features]` learned scale.
    pub closed spec fn scale_spec(&self) -> Seq<Element> {
        self.scale@
    }

    /// The `[features]` learned shift.
    pub closed spec fn shift_spec(&self) -> Seq<Element> {
        self.shift@
    }

    /// The stabilizing epsilon.
    pub closed spec fn epsilon_spec(&self) -> Element {
        self.epsilon
    }

    /// The batch extent the statistics reduce over.
    pub closed spec fn batch_spec(&self) -> usize {
        self.batch
    }

    /// The feature extent.
    pub closed spec fn features_spec(&self) -> usize {
        self.features
    }

    /// A task is well formed when both extents are positive and every
    /// slice spans its shape.
    pub open spec fn well_formed(&self) -> bool {
        &&& self.batch_spec() > 0
        &&& self.features_spec() > 0
        &&& self.input_spec().len() == self.batch_spec() * self.features_spec()
        &&& self.scale_spec().len() == self.features_spec()
        &&& self.shift_spec().len() == self.features_spec()
    }

    /// Creates a validated task over the row-major `[batch, features]`
    /// input and the `[features]` affine operands.
    pub fn new(
        input: &'buffers [Element],
        scale: &'buffers [Element],
        shift: &'buffers [Element],
        epsilon: Element,
        batch: usize,
        features: usize,
    ) -> (task: Self)
        requires
            batch > 0,
            features > 0,
            input@.len() == batch * features,
            scale@.len() == features,
            shift@.len() == features,
        ensures
            task.input_spec() == input@,
            task.scale_spec() == scale@,
            task.shift_spec() == shift@,
            task.epsilon_spec() == epsilon,
            task.batch_spec() == batch,
            task.features_spec() == features,
            task.well_formed(),
    {
        BatchNormTask { input, scale, shift, epsilon, batch, features }
    }

    /// Returns the row-major `[batch, features]` input slice.
    pub fn input(&self) -> (input: &'buffers [Element])
        ensures
            input@ == self.input_spec(),
    {
        self.input
    }

    /// Returns the `[features]` learned scale.
    pub fn scale(&self) -> (scale: &'buffers [Element])
        ensures
            scale@ == self.scale_spec(),
    {
        self.scale
    }

    /// Returns the `[features]` learned shift.
    pub fn shift(&self) -> (shift: &'buffers [Element])
        ensures
            shift@ == self.shift_spec(),
    {
        self.shift
    }

    /// Returns the single stabilizing epsilon.
    pub fn epsilon(&self) -> (epsilon: &Element)
        ensures
            *epsilon == self.epsilon_spec(),
    {
        &self.epsilon
    }

    /// Returns the batch extent the statistics reduce over.
    pub fn batch(&self) -> (batch: usize)
        ensures
            batch == self.batch_spec(),
    {
        self.batch
    }

    /// Returns the feature extent.
    pub fn features(&self) -> (features: usize)
        ensures
            features == self.features_spec(),
    {
        self.features
    }
}

/// A batch-normalization task's whole product: the normalized output
/// with the batch statistics it normalized by, mirroring the recorded
/// formula's root and named results.
#[derive(Debug)]
pub struct Normalized<Element> {
    /// The normalized, affine-transformed `[batch, features]` output,
    /// row-major.
    pub output: Vec<Element>,
    /// The batch's per-feature `[features]` mean.
    pub mean: Vec<Element>,
    /// The batch's per-feature `[features]` biased variance.
    pub variance: Vec<Element>,
}

} // verus!
