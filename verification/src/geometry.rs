//! Rectangles of terminal cells.

use vstd::prelude::*;

verus! {

/// A rectangle of terminal cells: `width` columns from column `x`, `height` rows from row `y`.
#[derive(Clone, Copy, Debug, PartialEq, Eq, Structural)]
pub struct Rect {
    pub x: u16,
    pub y: u16,
    pub width: u16,
    pub height: u16,
}

impl Rect {
    /// The rectangle at the given place; what would reach beyond the last column or row is cut
    /// off.
    pub open spec fn placed(x: u16, y: u16, width: u16, height: u16) -> Rect {
        Rect {
            x,
            y,
            width: if x + width > u16::MAX {
                (u16::MAX - x) as u16
            } else {
                width
            },
            height: if y + height > u16::MAX {
                (u16::MAX - y) as u16
            } else {
                height
            },
        }
    }

    /// The rectangle at the given place, cut off at the last column and row.
    pub fn new(x: u16, y: u16, width: u16, height: u16) -> (r: Rect)
        ensures
            r == Rect::placed(x, y, width, height),
    {
        let (right, below) = (u16::MAX - x, u16::MAX - y);
        Rect {
            x,
            y,
            width: if width > right {
                right
            } else {
                width
            },
            height: if height > below {
                below
            } else {
                height
            },
        }
    }

    /// The cell at the given column and row lies in the rectangle.
    pub open spec fn covers(self, col: int, row: int) -> bool {
        self.x <= col < self.x + self.width && self.y <= row < self.y + self.height
    }

    /// Whether the cell at the given column and row lies in the rectangle.
    pub fn contains(&self, col: u16, row: u16) -> (r: bool)
        ensures
            r == self.covers(col as int, row as int),
    {
        let (c, w) = (col as u32, row as u32);
        c >= self.x as u32 && c < self.x as u32 + self.width as u32 && w >= self.y as u32 && w
            < self.y as u32 + self.height as u32
    }
}

/// A rectangle covers exactly the cells it was placed on, as far as the last column and row.
pub proof fn law_placed_covers(x: u16, y: u16, width: u16, height: u16, col: int, row: int)
    requires
        col < u16::MAX,
        row < u16::MAX,
    ensures
        Rect::placed(x, y, width, height).covers(col, row) <==> x <= col < x + width && y <= row < y
            + height,
        Rect::placed(x, y, width, height).x == x,
        Rect::placed(x, y, width, height).y == y,
        x + width <= u16::MAX ==> Rect::placed(x, y, width, height).width == width,
        y + height <= u16::MAX ==> Rect::placed(x, y, width, height).height == height,
{
}

/// A rectangle covers its corners and no cell just outside of it.
pub proof fn law_covers_corners(r: Rect)
    requires
        r.width > 0,
        r.height > 0,
    ensures
        r.covers(r.x as int, r.y as int),
        r.covers(r.x + r.width - 1, r.y + r.height - 1),
        !r.covers(r.x - 1, r.y as int),
        !r.covers(r.x as int, r.y - 1),
        !r.covers(r.x + r.width, r.y as int),
        !r.covers(r.x as int, r.y + r.height),
{
}

} // verus!
