//! The plottable sample type.
//!
//! Both coordinates are fixed-point integers: `x` is a normalized axis
//! coordinate in ticks since the plot's origin (see [`crate::axis`]), and
//! `y` is the sample value in the line's own fixed-point unit.  Keeping the
//! coordinates integral makes every comparison and every bucket assignment
//! exact.

use vstd::prelude::*;

verus! {

/// One plottable point in normalized coordinates.
#[derive(Clone, Copy, PartialEq, Eq, Structural, Debug)]
pub struct Sample {
    /// Normalized axis coordinate, in ticks since the plot's origin.
    pub x: i64,
    /// Sample value, in fixed-point units of the line.
    pub y: i64,
}

impl Sample {
    /// Builds a sample from its two coordinates.
    pub fn new(x: i64, y: i64) -> (s: Sample)
        ensures
            s.x == x,
            s.y == y,
    {
        Sample { x, y }
    }
}

} // verus!
