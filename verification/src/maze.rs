//! The mathematical model of a maze: its tiles, the step a walk takes from
//! one pipe to the next, and the loop that leaves from the start tile.

use vstd::prelude::*;
use crate::location::Location;
use crate::tile::{Direction, Tile};

verus! {

/// Why a text or a set of rows is no maze, or why its loop has no area that
/// can be reported.
#[derive(Debug, PartialEq, Eq, Copy, Clone, Structural)]
pub enum MazeError {
    /// There is no start tile (where a position was given: none at it).
    NoStart,
    /// The rows do not all have the same length.
    RaggedRows,
    /// There is more than one start tile.
    MultipleStarts,
    /// The area formula gives a number below zero or beyond `usize` for the
    /// loop that was found.
    AreaOutOfRange,
}

/// A maze as a value of mathematics: rows of tiles, and where the start is.
pub struct Maze {
    pub tiles: Seq<Seq<Tile>>,
    pub start: Location,
}

/// The location one step from `loc` towards `dir`, where `usize` has one.
pub open spec fn shifted(loc: Location, dir: Direction) -> Option<Location> {
    match dir {
        Direction::North => if loc.y > 0 {
            Some(Location { x: loc.x, y: (loc.y - 1) as usize })
        } else {
            None
        },
        Direction::South => if loc.y < usize::MAX {
            Some(Location { x: loc.x, y: (loc.y + 1) as usize })
        } else {
            None
        },
        Direction::East => if loc.x < usize::MAX {
            Some(Location { x: (loc.x + 1) as usize, y: loc.y })
        } else {
            None
        },
        Direction::West => if loc.x > 0 {
            Some(Location { x: (loc.x - 1) as usize, y: loc.y })
        } else {
            None
        },
    }
}

/// Whether row `loc.y` has a column `loc.x` that holds the start tile.
pub open spec fn start_at(tiles: Seq<Seq<Tile>>, loc: Location) -> bool {
    &&& loc.y < tiles.len()
    &&& loc.x < tiles[loc.y as int].len()
    &&& tiles[loc.y as int][loc.x as int] == Tile::Start
}

/// Whether all rows are as long as the first.
pub open spec fn rectangular(tiles: Seq<Seq<Tile>>) -> bool {
    forall|y: int| 0 <= y < tiles.len() ==> (#[trigger] tiles[y]).len() == tiles[0].len()
}

/// Whether no location but `loc` holds a start tile.
pub open spec fn no_other_start(tiles: Seq<Seq<Tile>>, loc: Location) -> bool {
    forall|other: Location| #[trigger] start_at(tiles, other) ==> other == loc
}

/// The maze that `tiles` form with the start at `loc`, or the reason why
/// they form none. The reasons are tried in this order.
pub open spec fn checked(tiles: Seq<Seq<Tile>>, loc: Location) -> Result<Maze, MazeError> {
    if !start_at(tiles, loc) {
        Err(MazeError::NoStart)
    } else if !rectangular(tiles) {
        Err(MazeError::RaggedRows)
    } else if !no_other_start(tiles, loc) {
        Err(MazeError::MultipleStarts)
    } else {
        Ok(Maze { tiles: tiles, start: loc })
    }
}

impl Maze {
    /// The number of rows.
    pub open spec fn height(self) -> nat {
        self.tiles.len()
    }

    /// The number of columns, which is the length of the first row.
    pub open spec fn width(self) -> nat {
        if self.tiles.len() == 0 {
            0
        } else {
            self.tiles[0].len()
        }
    }

    /// Whether `loc` is a cell of the maze.
    pub open spec fn contains(self, loc: Location) -> bool {
        loc.y < self.height() && loc.x < self.width()
    }

    /// The tile in the cell `loc`.
    pub open spec fn tile(self, loc: Location) -> Tile {
        self.tiles[loc.y as int][loc.x as int]
    }

    /// All rows have the same length, and the start is the one cell that
    /// holds a start tile.
    pub open spec fn wf(self) -> bool {
        checked(self.tiles, self.start) is Ok
    }

    /// The cell next to `loc` towards `dir`, if the maze has one.
    pub open spec fn neighbor(self, loc: Location, dir: Direction) -> Option<Location> {
        match shifted(loc, dir) {
            Some(n) => if self.contains(n) {
                Some(n)
            } else {
                None
            },
            None => None,
        }
    }

    /// The neighbor of `loc` towards `dir`, with the side of it that faces
    /// `loc`, if that neighbor is a pipe with an open side there; else
    /// nothing. The start tile declares no open side, so it is never listed.
    pub open spec fn entry(self, loc: Location, dir: Direction) -> Seq<(Location, Direction)> {
        match self.neighbor(loc, dir) {
            Some(n) => if self.tile(n).opens(dir.opposite()) {
                seq![(n, dir.opposite())]
            } else {
                Seq::empty()
            },
            None => Seq::empty(),
        }
    }

    /// The neighbors of `loc` that are pipes with an open side facing `loc`,
    /// looking north, south, west and east in this order.
    pub open spec fn connected(self, loc: Location) -> Seq<(Location, Direction)> {
        self.entry(loc, Direction::North) + self.entry(loc, Direction::South) + self.entry(
            loc,
            Direction::West,
        ) + self.entry(loc, Direction::East)
    }

    /// Whether a walk can stand on `at.0` having entered it through side
    /// `at.1`: the cell is a pipe that is open there.
    pub open spec fn on_pipe(self, at: (Location, Direction)) -> bool {
        self.contains(at.0) && self.tile(at.0).opens(at.1)
    }

    /// One step of a walk: from the pipe at `at.0`, entered through `at.1`,
    /// through the pipe's other side to the neighbor there. There is no step
    /// from anything but a pipe entered through an open side, none over the
    /// border, and none into a tile that is closed on the side it is
    /// reached from.
    pub open spec fn step(self, at: (Location, Direction)) -> Option<(Location, Direction)> {
        if self.on_pipe(at) {
            let out = self.tile(at.0).exit(at.1);
            match self.neighbor(at.0, out) {
                Some(n) => if self.tile(n).connects(out.opposite()) {
                    Some((n, out.opposite()))
                } else {
                    None
                },
                None => None,
            }
        } else {
            None
        }
    }

    /// Where a walk that begins at `first` is after `n` steps, if it gets
    /// that far.
    pub open spec fn trace(self, first: (Location, Direction), n: nat) -> Option<
        (Location, Direction),
    >
        decreases n,
    {
        if n == 0 {
            Some(first)
        } else {
            match self.trace(first, (n - 1) as nat) {
                Some(at) => self.step(at),
                None => None,
            }
        }
    }

    /// Whether the walk from `first` is back on the start tile after `n`
    /// steps.
    pub open spec fn closes_after(self, first: (Location, Direction), n: nat) -> bool {
        self.trace(first, n) matches Some(at) && at.0 == self.start
    }

    /// Whether the walk from `first` ever comes back to the start tile.
    pub open spec fn closes(self, first: (Location, Direction)) -> bool {
        exists|n: nat| self.closes_after(first, n)
    }

    /// The number of steps after which the walk from `first` is back on the
    /// start tile, where it closes.
    pub open spec fn closing_steps(self, first: (Location, Direction)) -> nat {
        choose|n: nat| self.closes_after(first, n)
    }

    /// The first `n + 2` locations of the walk from `first`, the start tile
    /// being the first of them.
    pub open spec fn walked(self, first: (Location, Direction), n: nat) -> Seq<Location> {
        seq![self.start] + Seq::new(n + 1, |k: int| self.trace(first, k as nat).unwrap().0)
    }

    /// The loop through `first`: the start tile, then every location of the
    /// walk from `first` up to the start tile again.
    pub open spec fn loop_from(self, first: (Location, Direction)) -> Seq<Location> {
        self.walked(first, self.closing_steps(first))
    }

    /// The first of `firsts` from which the walk closes.
    pub open spec fn first_closing(self, firsts: Seq<(Location, Direction)>) -> Option<
        (Location, Direction),
    >
        decreases firsts.len(),
    {
        if firsts.len() == 0 {
            None
        } else if self.closes(firsts[0]) {
            Some(firsts[0])
        } else {
            self.first_closing(firsts.skip(1))
        }
    }

    /// The loop of the maze: the walk from the first connected neighbor of
    /// the start tile from which a walk comes back to it. `None` where no
    /// such walk comes back.
    pub open spec fn traced_loop(self) -> Option<Seq<Location>> {
        match self.first_closing(self.connected(self.start)) {
            Some(first) => Some(self.loop_from(first)),
            None => None,
        }
    }
}

} // verus!
