//! Grouped bar charts of benchmark throughput: reading benchmark events into
//! records grouped by benchmark and input size, assigning each variant a color,
//! and laying out axes, bars, labels, legend and title as drawing primitives.
use vstd::prelude::*;

pub mod grouping;
pub mod json;
pub mod layout;
pub mod loader;
pub mod model;
pub mod record;
pub mod shapes;
pub mod text;

verus! {

} // verus!
