//! Grid coordinates.

use vstd::prelude::*;

verus! {

/// A cell's position: `x` is the column, `y` the row, both counted from 0 at
/// the top-left corner.
#[derive(Debug, PartialEq, Eq, Copy, Clone, Structural)]
pub struct Location {
    pub x: usize,
    pub y: usize,
}

impl Location {
    /// The cell above, unless this one is in row 0.
    pub fn north(&self) -> (r: Option<Location>)
        ensures
            r == (if self.y > 0 {
                Some(Location { x: self.x, y: (self.y - 1) as usize })
            } else {
                None
            }),
    {
        if self.y > 0 {
            Some(Location { x: self.x, y: self.y - 1 })
        } else {
            None
        }
    }

    /// The cell below, unless this one is in row `maxy` or beyond.
    pub fn south(&self, maxy: usize) -> (r: Option<Location>)
        ensures
            r == (if self.y < maxy {
                Some(Location { x: self.x, y: (self.y + 1) as usize })
            } else {
                None
            }),
    {
        if self.y < maxy {
            Some(Location { x: self.x, y: self.y + 1 })
        } else {
            None
        }
    }

    /// The cell to the right, unless this one is in column `maxx` or beyond.
    pub fn east(&self, maxx: usize) -> (r: Option<Location>)
        ensures
            r == (if self.x < maxx {
                Some(Location { x: (self.x + 1) as usize, y: self.y })
            } else {
                None
            }),
    {
        if self.x < maxx {
            Some(Location { x: self.x + 1, y: self.y })
        } else {
            None
        }
    }

    /// The cell to the left, unless this one is in column 0.
    pub fn west(&self) -> (r: Option<Location>)
        ensures
            r == (if self.x > 0 {
                Some(Location { x: (self.x - 1) as usize, y: self.y })
            } else {
                None
            }),
    {
        if self.x > 0 {
            Some(Location { x: self.x - 1, y: self.y })
        } else {
            None
        }
    }
}

/// Whether `b` is one step north, south, east or west of `a`.
pub open spec fn unit_step(a: Location, b: Location) -> bool {
    ||| a.x == b.x && a.y + 1 == b.y
    ||| a.x == b.x && b.y + 1 == a.y
    ||| a.y == b.y && a.x + 1 == b.x
    ||| a.y == b.y && b.x + 1 == a.x
}

/// Whether the location after position `i` of `p` is one step from the one
/// at position `i`.
pub open spec fn step_at(p: Seq<Location>, i: int) -> bool {
    unit_step(p[i], p[i + 1])
}

/// Whether each location of `p` is one step from the one before it.
pub open spec fn unit_steps(p: Seq<Location>) -> bool {
    forall|i: int| 0 <= i < p.len() - 1 ==> #[trigger] step_at(p, i)
}

/// A closed path: it ends where it began, and each location is one step from
/// the one before it.
pub open spec fn closed_path(p: Seq<Location>) -> bool {
    &&& p.len() >= 1
    &&& p[0] == p[p.len() - 1]
    &&& unit_steps(p)
}

} // verus!
