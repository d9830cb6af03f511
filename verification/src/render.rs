//! Colour scheme selection of the chart.
use vstd::prelude::*;

verus! {

/// How sectors are coloured.
#[derive(Clone, Copy, Debug, PartialEq, Eq, Structural)]
pub enum ColorMode {
    /// Hue from the size relative to the largest sibling (red = largest,
    /// yellow = small), faded towards white with depth.
    Size,
    /// Hue from the ring (red core to yellow rim), brightness alternating
    /// between neighbours.
    Depth,
}

impl Default for ColorMode {
    fn default() -> (m: Self)
        ensures
            m == ColorMode::Size,
    {
        ColorMode::Size
    }
}

} // verus!
