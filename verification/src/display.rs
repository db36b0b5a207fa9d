//! What a display needs to decide about a layout: when to compute it
//! anew, which cells to draw, and which cell lies under a point.

use vstd::prelude::*;
use crate::geometry::{LayoutRect, Rect};
use crate::treemap::{Placed, TreemapCell};

verus! {

/// What a layout was computed for. A stored layout can be used again
/// exactly as long as none of these has changed.
#[derive(Debug, Clone, Copy)]
pub struct LayoutKey {
    /// The number of the scan that the tree comes from.
    pub scan_generation: u64,
    /// The greatest depth laid out.
    pub depth: usize,
    /// The greatest number of cells.
    pub max_nodes: usize,
    /// The least width and height of a cell that is drawn, in units.
    pub min_cell: i32,
    /// The canvas, in units.
    pub canvas: LayoutRect,
}

/// The two keys agree in everything.
pub open spec fn same_key(a: LayoutKey, b: LayoutKey) -> bool {
    &&& a.scan_generation == b.scan_generation
    &&& a.depth == b.depth
    &&& a.max_nodes == b.max_nodes
    &&& a.min_cell == b.min_cell
    &&& a.canvas@ == b.canvas@
}

/// Whether the layout has to be computed anew: there is none stored, or
/// the stored one was computed for something else.
pub fn cache_needs_rebuild(cached: Option<&LayoutKey>, wanted: &LayoutKey) -> (rebuild: bool)
    ensures
        rebuild == match cached {
            Some(key) => !same_key(*key, *wanted),
            None => true,
        },
{
    match cached {
        Some(key) => key.scan_generation != wanted.scan_generation || key.depth != wanted.depth
            || key.max_nodes != wanted.max_nodes || key.min_cell != wanted.min_cell
            || key.canvas.x != wanted.canvas.x || key.canvas.y != wanted.canvas.y || key.canvas.w
            != wanted.canvas.w || key.canvas.h != wanted.canvas.h,
        None => true,
    }
}

/// A cell is drawn if it is not the root's and neither its width nor its
/// height is below `min_cell`.
pub open spec fn drawn(cell: Placed, min_cell: int) -> bool {
    cell.depth > 0 && cell.rect.w >= min_cell && cell.rect.h >= min_cell
}

/// Whether a cell is drawn.
pub fn is_drawn(cell: &TreemapCell<'_>, min_cell: i32) -> (shown: bool)
    ensures
        shown == drawn(cell@, min_cell as int),
{
    cell.depth > 0 && cell.rect.w >= min_cell && cell.rect.h >= min_cell
}

/// The point `(x, y)` lies in the rectangle, its edges included.
pub open spec fn holds_point(rect: Rect, x: int, y: int) -> bool {
    rect.x <= x <= rect.x + rect.w && rect.y <= y <= rect.y + rect.h
}

/// The rectangle under the point `(x, y)`: the last in the list that holds
/// the point. Where the list holds the rectangles of the cells drawn, in
/// the order of the layout, that is the deepest cell under the point.
pub fn cell_at(rects: &Vec<LayoutRect>, x: i32, y: i32) -> (found: Option<usize>)
    ensures
        match found {
            Some(i) => i < rects.len() && holds_point(rects@[i as int]@, x as int, y as int)
                && forall|j: int|
                i < j < rects.len() ==> !holds_point(#[trigger] rects@[j]@, x as int, y as int),
            None => forall|j: int|
                0 <= j < rects.len() ==> !holds_point(#[trigger] rects@[j]@, x as int, y as int),
        },
{
    let mut i: usize = rects.len();
    while i > 0
        invariant
            i <= rects.len(),
            forall|j: int|
                i <= j < rects.len() ==> !holds_point(#[trigger] rects@[j]@, x as int, y as int),
        decreases i,
    {
        i -= 1;
        let rect = rects[i];
        if rect.x <= x && (x as i64) <= (rect.x as i64) + (rect.w as i64) && rect.y <= y && (
        y as i64) <= (rect.y as i64) + (rect.h as i64) {
            return Some(i);
        }
    }
    None
}

} // verus!
