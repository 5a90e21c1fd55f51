//! The events that the engine sends to its systems.

use vstd::prelude::*;

pub mod timing;

verus! {

/// Sent once, when the systems are in place.
#[derive(Clone, Copy, Debug, PartialEq, Eq, Structural)]
pub struct Initialized {}

/// Sent when a frame is to be drawn.
#[derive(Clone, Copy, Debug, PartialEq, Eq, Structural)]
pub struct Draw;

} // verus!
