//! Identities and directions of the graphics drawn over the waveform.
use vstd::prelude::*;

verus! {

/// A compass direction in which a graphic points.
#[derive(Debug, Clone, Copy, PartialEq, Eq, Structural)]
pub enum Direction {
    North,
    East,
    South,
    West,
}

/// Identity of a graphic.
#[derive(Debug, Clone, Copy, PartialEq, Eq, Structural, PartialOrd, Ord, Hash)]
pub struct GraphicId(pub usize);

} // verus!
