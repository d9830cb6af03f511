//! What a click on the sunburst chart does, given what lies under the
//! pointer.
use vstd::prelude::*;

use crate::model::Model;

verus! {

#[derive(Clone, Copy, Debug, PartialEq, Eq, Structural)]
pub enum ChartAction {
    /// Nothing to do.
    Nothing,
    Navigate(u32),
    Up,
    OpenInExplorer(u32),
    Properties(u32),
}

/// What lies under the pointer in the chart.
#[derive(Clone, Copy, Debug, PartialEq, Eq, Structural)]
pub enum ChartHit {
    /// The centre disc, which stands for the current root.
    Center,
    /// The sector of one file or directory.
    Item(u32),
    /// A sector merging items too small to be told apart.
    Group,
    /// The free-space sector of a whole volume.
    Free,
    /// Empty space.
    Empty,
}

/// What a left click does: the action, and whether to zoom in towards the
/// pointer (a click on a group of small items).
pub open spec fn spec_primary_click(model: &Model, hit: ChartHit) -> (ChartAction, bool) {
    match hit {
        ChartHit::Center => (ChartAction::Up, false),
        ChartHit::Group => (ChartAction::Nothing, true),
        ChartHit::Item(id) => if model.spec_nodes()[id as int].is_dir {
            (ChartAction::Navigate(id), false)
        } else {
            (ChartAction::Nothing, false)
        },
        ChartHit::Free | ChartHit::Empty => (ChartAction::Nothing, false),
    }
}

/// A left click: the centre goes up, a directory sector becomes the new
/// centre, a group of small items is zoomed into; anything else does
/// nothing.
pub fn primary_click(model: &Model, hit: ChartHit) -> (r: (ChartAction, bool))
    requires
        hit matches ChartHit::Item(id) ==> id < model.spec_len(),
    ensures
        r == spec_primary_click(model, hit),
{
    match hit {
        ChartHit::Center => (ChartAction::Up, false),
        ChartHit::Group => (ChartAction::Nothing, true),
        ChartHit::Item(id) => {
            if model.node(id).is_dir {
                (ChartAction::Navigate(id), false)
            } else {
                (ChartAction::Nothing, false)
            }
        },
        ChartHit::Free | ChartHit::Empty => (ChartAction::Nothing, false),
    }
}

/// The node a right click opens the context menu for: a single item, or
/// the current root when the centre disc is clicked; nothing on empty
/// space, the free space or a group of small items.
pub fn menu_target(hit: ChartHit, root: u32) -> (r: Option<u32>)
    ensures
        r == match hit {
            ChartHit::Center => Some(root),
            ChartHit::Item(id) => Some(id),
            _ => None,
        },
{
    match hit {
        ChartHit::Center => Some(root),
        ChartHit::Item(id) => Some(id),
        _ => None,
    }
}

/// The single item highlighted as hovered: while a context menu is open,
/// the node it acts on; else the item under the pointer (not groups).
pub fn hovered_item(menu_node: Option<u32>, hit: ChartHit) -> (r: Option<u32>)
    ensures
        r == match menu_node {
            Some(n) => Some(n),
            None => match hit {
                ChartHit::Item(id) => Some(id),
                _ => None,
            },
        },
{
    match menu_node {
        Some(n) => Some(n),
        None => match hit {
            ChartHit::Item(id) => Some(id),
            _ => None,
        },
    }
}

} // verus!
