use vstd::prelude::*;

verus! {

/// Tag of a vector that stands for a position in space.
#[derive(Debug, Clone, Copy)]
pub struct PointMarker;

/// Tag of a vector that stands for a direction or an offset.
#[derive(Debug, Clone, Copy)]
pub struct ArrowMarker;

/// Tag of a vector that stands for a colour with red, green and blue channels.
#[derive(Debug, Clone, Copy)]
pub struct ColorMarker;

} // verus!
