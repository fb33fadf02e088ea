//! Topos: an autodiff compiler stack whose shape, layout and graph
//! bookkeeping is specified and proved.

#![allow(unused_imports)]

use vstd::prelude::*;

pub mod inline;
pub mod shape;
pub mod layout;
pub mod reorder;
pub mod graph;
pub mod op;
pub mod engine;
pub mod normalized;
pub mod storage;
pub mod tensor;

verus! {
}
