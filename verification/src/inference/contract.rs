//! The parts of a model's input/output contract that hold no measurements.

use vstd::prelude::*;

verus! {

/// The version of the model manifest schema this build reads.
pub const MANIFEST_SCHEMA_VERSION: u32 = 1;

/// The activation applied to a model's raw output.
#[derive(Clone, Copy, Debug, Eq, PartialEq, Structural)]
pub enum Activation {
    Identity,
    Sigmoid,
    Softmax,
}

/// What to do with a tile whose input holds invalid values.
#[derive(Clone, Copy, Debug, Eq, PartialEq, Structural)]
pub enum InvalidPolicy {
    RejectTile,
}

/// The shape and meaning of a model's output raster.
#[derive(Clone, Copy, Debug, PartialEq)]
pub struct OutputDescriptor {
    pub width: usize,
    pub height: usize,
    pub channels: &'static [&'static str],
    pub activation: Activation,
}

} // verus!
