//! Scene descriptions handed to the core by the decoding layer.
//!
//! The wire format is not the core's concern: whatever transport and
//! encoding deliver a scene, it arrives here as plain values.  A label
//! position is an association list from axis name to coordinate; axes a
//! label does not mention default to the origin of that axis.

use vstd::prelude::*;

use crate::rat::Rat;

verus! {

/// A text label pinned to a point of the cube's space.
pub struct Label {
    pub position: Vec<(String, Rat)>,
    pub txt: String,
}

/// A full scene: the ordered axis names, the labels to pin, and a
/// free-form context text shown beside the scene.
pub struct DisplayGoal {
    pub dims: Vec<String>,
    pub labels: Vec<Label>,
    pub context: String,
}

/// Everything the outside can ask the scene to do.
pub enum Message {
    DisplayGoal(DisplayGoal),
}

} // verus!
