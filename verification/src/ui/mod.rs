//! State of the side panels, independent of how they are drawn.
pub mod chart;
pub mod files;
pub mod search;
pub mod tree;

use vstd::prelude::*;

verus! {

/// What the left panel shows.
#[derive(Clone, Copy, Debug, PartialEq, Eq, Structural)]
pub enum SideView {
    Folders,
    LargestFiles,
    Search,
}

impl Default for SideView {
    fn default() -> (v: Self)
        ensures
            v == SideView::Folders,
    {
        SideView::Folders
    }
}

} // verus!
