//! Tiles of the pipe maze and the four compass directions.

use vstd::prelude::*;
use crate::search::position_of;

verus! {

/// The input characters, as bytes: `|`, `-`, `L`, `J`, `7`, `F`, `S` and
/// `.`.
pub const BYTE_VERTICAL: u8 = 0x7c;

pub const BYTE_HORIZONTAL: u8 = 0x2d;

pub const BYTE_BEND_NE: u8 = 0x4c;

pub const BYTE_BEND_NW: u8 = 0x4a;

pub const BYTE_BEND_SW: u8 = 0x37;

pub const BYTE_BEND_SE: u8 = 0x46;

pub const BYTE_START: u8 = 0x53;

pub const BYTE_GROUND: u8 = 0x2e;

/// A compass direction. It serves both as a step (north is towards row 0,
/// west towards column 0) and as the side of a tile through which a walk
/// entered it.
#[derive(Debug, PartialEq, Eq, Copy, Clone, Structural)]
pub enum Direction {
    North,
    South,
    East,
    West,
}

/// One cell of the maze.
#[derive(Debug, PartialEq, Eq, Copy, Clone, Structural)]
pub enum Tile {
    /// `|`, open to the north and to the south.
    Vertical,
    /// `-`, open to the east and to the west.
    Horizontal,
    /// `L`, open to the north and to the east.
    BendNE,
    /// `J`, open to the north and to the west.
    BendNW,
    /// `7`, open to the south and to the west.
    BendSW,
    /// `F`, open to the south and to the east.
    BendSE,
    /// `.` and every other character: no pipe.
    Ground,
    /// `S`, the tile the loop starts from; its own shape is not written down.
    Start,
}

impl Direction {
    /// The direction that points the other way.
    pub open spec fn opposite(self) -> Direction {
        match self {
            Direction::North => Direction::South,
            Direction::South => Direction::North,
            Direction::East => Direction::West,
            Direction::West => Direction::East,
        }
    }

    /// The direction that points the other way.
    pub fn reverse(self) -> (r: Direction)
        ensures
            r == self.opposite(),
    {
        match self {
            Direction::North => Direction::South,
            Direction::South => Direction::North,
            Direction::East => Direction::West,
            Direction::West => Direction::East,
        }
    }
}

impl Tile {
    /// The tile that an input character stands for.
    pub open spec fn of_byte(b: u8) -> Tile {
        if b == BYTE_VERTICAL {
            Tile::Vertical
        } else if b == BYTE_HORIZONTAL {
            Tile::Horizontal
        } else if b == BYTE_BEND_NE {
            Tile::BendNE
        } else if b == BYTE_BEND_NW {
            Tile::BendNW
        } else if b == BYTE_BEND_SW {
            Tile::BendSW
        } else if b == BYTE_BEND_SE {
            Tile::BendSE
        } else if b == BYTE_START {
            Tile::Start
        } else {
            Tile::Ground
        }
    }

    /// Whether the tile is a pipe with an open side towards `side`.
    pub open spec fn opens(self, side: Direction) -> bool {
        match self {
            Tile::Vertical => side == Direction::North || side == Direction::South,
            Tile::Horizontal => side == Direction::East || side == Direction::West,
            Tile::BendNE => side == Direction::North || side == Direction::East,
            Tile::BendNW => side == Direction::North || side == Direction::West,
            Tile::BendSW => side == Direction::South || side == Direction::West,
            Tile::BendSE => side == Direction::South || side == Direction::East,
            Tile::Ground => false,
            Tile::Start => false,
        }
    }

    /// Whether a walk may enter the tile through `side`: a pipe through its
    /// two open sides, the start tile through any side, ground through none.
    pub open spec fn connects(self, side: Direction) -> bool {
        self == Tile::Start || self.opens(side)
    }

    /// The side through which a walk leaves a pipe that it entered through
    /// `arrival`: the pipe's other open side. This is the whole transition
    /// table, six pipes with two arrival sides each.
    pub open spec fn exit(self, arrival: Direction) -> Direction
        recommends
            self.opens(arrival),
    {
        match self {
            Tile::Vertical => arrival.opposite(),
            Tile::Horizontal => arrival.opposite(),
            Tile::BendNE => if arrival == Direction::North {
                Direction::East
            } else {
                Direction::North
            },
            Tile::BendNW => if arrival == Direction::North {
                Direction::West
            } else {
                Direction::North
            },
            Tile::BendSW => if arrival == Direction::South {
                Direction::West
            } else {
                Direction::South
            },
            Tile::BendSE => if arrival == Direction::South {
                Direction::East
            } else {
                Direction::South
            },
            Tile::Ground => arrival,
            Tile::Start => arrival,
        }
    }

    /// Reads one input character.
    pub fn from_byte(b: u8) -> (t: Tile)
        ensures
            t == Tile::of_byte(b),
    {
        if b == BYTE_VERTICAL {
            Tile::Vertical
        } else if b == BYTE_HORIZONTAL {
            Tile::Horizontal
        } else if b == BYTE_BEND_NE {
            Tile::BendNE
        } else if b == BYTE_BEND_NW {
            Tile::BendNW
        } else if b == BYTE_BEND_SW {
            Tile::BendSW
        } else if b == BYTE_BEND_SE {
            Tile::BendSE
        } else if b == BYTE_START {
            Tile::Start
        } else {
            Tile::Ground
        }
    }

    /// Whether the tile is a pipe with an open side towards `side`.
    pub fn is_open(self, side: Direction) -> (r: bool)
        ensures
            r == self.opens(side),
    {
        match (self, side) {
            (Tile::Vertical, Direction::North) => true,
            (Tile::Vertical, Direction::South) => true,
            (Tile::Horizontal, Direction::East) => true,
            (Tile::Horizontal, Direction::West) => true,
            (Tile::BendNE, Direction::North) => true,
            (Tile::BendNE, Direction::East) => true,
            (Tile::BendNW, Direction::North) => true,
            (Tile::BendNW, Direction::West) => true,
            (Tile::BendSW, Direction::South) => true,
            (Tile::BendSW, Direction::West) => true,
            (Tile::BendSE, Direction::South) => true,
            (Tile::BendSE, Direction::East) => true,
            _ => false,
        }
    }

    /// The side through which a walk leaves a pipe that it entered through
    /// `arrival`, one of the pipe's two open sides. The table has these
    /// twelve entries and no other.
    pub fn way_out(self, arrival: Direction) -> (out: Direction)
        requires
            self.opens(arrival),
        ensures
            out == self.exit(arrival),
    {
        match (self, arrival) {
            (Tile::Vertical, _) => arrival.reverse(),
            (Tile::Horizontal, _) => arrival.reverse(),
            (Tile::BendNE, Direction::North) => Direction::East,
            (Tile::BendNE, _) => Direction::North,
            (Tile::BendNW, Direction::North) => Direction::West,
            (Tile::BendNW, _) => Direction::North,
            (Tile::BendSW, Direction::South) => Direction::West,
            (Tile::BendSW, _) => Direction::South,
            (Tile::BendSE, Direction::South) => Direction::East,
            (Tile::BendSE, _) => Direction::South,
            (Tile::Ground, _) => arrival,
            (Tile::Start, _) => arrival,
        }
    }

    /// The character that the tile is written as.
    pub fn symbol(self) -> (b: u8)
        ensures
            Tile::of_byte(b) == self,
            b == BYTE_GROUND <==> self == Tile::Ground,
    {
        match self {
            Tile::Vertical => BYTE_VERTICAL,
            Tile::Horizontal => BYTE_HORIZONTAL,
            Tile::BendNE => BYTE_BEND_NE,
            Tile::BendNW => BYTE_BEND_NW,
            Tile::BendSW => BYTE_BEND_SW,
            Tile::BendSE => BYTE_BEND_SE,
            Tile::Ground => BYTE_GROUND,
            Tile::Start => BYTE_START,
        }
    }

    /// Whether a walk may enter the tile through `side`: whether its
    /// character is one of the four that are open there.
    pub fn accepts(self, side: Direction) -> (r: bool)
        ensures
            r == self.connects(side),
    {
        let open_there: [u8; 4] = match side {
            Direction::North => [BYTE_START, BYTE_VERTICAL, BYTE_BEND_NE, BYTE_BEND_NW],
            Direction::South => [BYTE_START, BYTE_VERTICAL, BYTE_BEND_SW, BYTE_BEND_SE],
            Direction::East => [BYTE_START, BYTE_HORIZONTAL, BYTE_BEND_NE, BYTE_BEND_SE],
            Direction::West => [BYTE_START, BYTE_HORIZONTAL, BYTE_BEND_SW, BYTE_BEND_NW],
        };
        position_of(self.symbol(), open_there.as_slice()) < 4
    }
}

/// A pipe has exactly two open sides, and `exit` maps each to the other.
pub proof fn lemma_exit_is_other_side(t: Tile, arrival: Direction)
    requires
        t.opens(arrival),
    ensures
        t.opens(t.exit(arrival)),
        t.exit(arrival) != arrival,
        t.exit(t.exit(arrival)) == arrival,
        forall|d: Direction| t.opens(d) ==> d == arrival || d == t.exit(arrival),
{
}

} // verus!
