//! The readings that run a spec: the declared entry and the pattern
//! catalog a consumer elects over a plan's candidates.

pub mod batch_norm;
pub mod catalog;
pub mod discover;
pub mod entry;
pub mod pattern;
pub mod reduce_window;
pub mod view;
pub mod window;
