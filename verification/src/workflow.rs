//! Open dynamics and the tracking of states.

pub use crate::lindblad::LindbladGenerator;
pub use crate::tracking::{track_states, Overlap, StateTrackingResult};
