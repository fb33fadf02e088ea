//! The buffer representations behind a tensor.

use std::sync::Arc;

use vstd::prelude::*;

use crate::layout::Layout;
use crate::shape::Shape;

verus! {

/// The buffer representation behind a [`Tensor`](crate::tensor::Tensor).
///
/// `Dense` is an `Arc`-shared row-major buffer that a [`Layout`]
/// addresses through strides and an offset; cloning shares it.
/// `Constant` is a single value that logically fills its shape without
/// allocating a buffer. `Selection` is a one-hot `[count, vocab]` matrix
/// stored as its `count` row indices: element `[i, j]` is `one` when
/// `indices[i] == j` and `zero` otherwise.
#[derive(Debug)]
pub enum Storage<Element> {
    /// A strided view over a shared buffer.
    Dense {
        /// The shared buffer.
        data: Arc<Vec<Element>>,
        /// How logical positions map onto the buffer.
        layout: Layout,
    },
    /// One value filling a whole shape.
    Constant {
        /// The logical shape.
        shape: Shape,
        /// The value at every position.
        value: Element,
    },
    /// A one-hot matrix stored as its row indices.
    Selection {
        /// The selected column of each row.
        indices: Arc<Vec<usize>>,
        /// The `[count, vocab]` logical shape.
        shape: Shape,
        /// The value off the selected columns.
        zero: Element,
        /// The value on the selected columns.
        one: Element,
    },
}

} // verus!
