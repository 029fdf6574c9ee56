//! The grid: the tiles of a maze in memory, with bounded neighbor queries.

use vstd::prelude::*;
use crate::location::{closed_path, Location};
use crate::maze::{checked, no_other_start, rectangular, start_at, Maze, MazeError};
use crate::tile::{Direction, Tile};
use crate::walk::{
    lemma_connected_leave_start, lemma_first_closing_skip, lemma_loop_is_simple,
    lemma_trace_bounded, lemma_walk_closed, lemma_walk_on, lemma_walk_stuck,
};

verus! {

/// The rows of `map` as sequences.
pub open spec fn rows_of(map: Vec<Vec<Tile>>) -> Seq<Seq<Tile>> {
    Seq::new(map.len() as nat, |y: int| map@[y]@)
}

/// A maze that was checked when it was built: its rows have one length, and
/// exactly one of its tiles is the start tile. It is never changed.
pub struct Grid {
    lower_right: Location,
    map: Vec<Vec<Tile>>,
    starting_pos: Location,
}

impl View for Grid {
    type V = Maze;

    closed spec fn view(&self) -> Maze {
        Maze { tiles: rows_of(self.map), start: self.starting_pos }
    }
}

impl Grid {
    #[verifier::type_invariant]
    spec fn inv(self) -> bool {
        &&& self@.wf()
        &&& self.lower_right.x + 1 == self@.width()
        &&& self.lower_right.y + 1 == self@.height()
    }

    /// Builds the grid from its rows and the position of its start tile.
    /// The rows are refused unless they form a maze with the start there.
    pub fn new(starting_pos: Location, map: Vec<Vec<Tile>>) -> (r: Result<Grid, MazeError>)
        ensures
            match r {
                Ok(g) => checked(rows_of(map), starting_pos) == Ok::<Maze, MazeError>(g@),
                Err(e) => checked(rows_of(map), starting_pos) == Err::<Maze, MazeError>(e),
            },
    {
        let ghost tiles = rows_of(map);
        let height = map.len();
        if !(starting_pos.y < height && starting_pos.x < map[starting_pos.y].len()
            && map[starting_pos.y][starting_pos.x] == Tile::Start) {
            return Err(MazeError::NoStart);
        }
        let width = map[0].len();
        let mut y: usize = 0;
        while y < height
            invariant
                height == map.len(),
                width == map@[0]@.len(),
                tiles == rows_of(map),
                start_at(tiles, starting_pos),
                0 <= y <= height,
                forall|i: int| 0 <= i < y ==> (#[trigger] tiles[i]).len() == width,
            decreases height - y,
        {
            if map[y].len() != width {
                assert(tiles[y as int].len() != tiles[0].len());
                return Err(MazeError::RaggedRows);
            }
            y += 1;
        }
        assert(rectangular(tiles));
        y = 0;
        while y < height
            invariant
                height == map.len(),
                width == map@[0]@.len(),
                tiles == rows_of(map),
                start_at(tiles, starting_pos),
                rectangular(tiles),
                0 <= y <= height,
                forall|o: Location| o.y < y && #[trigger] start_at(tiles, o) ==> o == starting_pos,
            decreases height - y,
        {
            let mut x: usize = 0;
            while x < width
                invariant
                    height == map.len(),
                    width == map@[0]@.len(),
                    tiles == rows_of(map),
                    start_at(tiles, starting_pos),
                    rectangular(tiles),
                    0 <= y < height,
                    0 <= x <= width,
                    forall|o: Location|
                        o.y < y && #[trigger] start_at(tiles, o) ==> o == starting_pos,
                    forall|o: Location|
                        o.y == y && o.x < x && #[trigger] start_at(tiles, o) ==> o
                            == starting_pos,
                decreases width - x,
            {
                assert(tiles[y as int].len() == width);
                if map[y][x] == Tile::Start && !(x == starting_pos.x && y == starting_pos.y) {
                    assert(start_at(tiles, Location { x: x, y: y }));
                    return Err(MazeError::MultipleStarts);
                }
                x += 1;
            }
            assert(tiles[y as int].len() == width);
            y += 1;
        }
        assert(no_other_start(tiles, starting_pos));
        let lower_right = Location { x: width - 1, y: height - 1 };
        Ok(Grid { lower_right, map, starting_pos })
    }

    /// The position of the start tile.
    pub fn starting_pos(&self) -> (r: Location)
        ensures
            r == self@.start,
            self@.wf(),
    {
        proof {
            use_type_invariant(self);
        }
        self.starting_pos
    }

    /// The number of columns.
    pub fn width(&self) -> (r: usize)
        ensures
            r == self@.width(),
    {
        proof {
            use_type_invariant(self);
        }
        self.map[0].len()
    }

    /// The number of rows.
    pub fn height(&self) -> (r: usize)
        ensures
            r == self@.height(),
    {
        proof {
            use_type_invariant(self);
        }
        self.map.len()
    }

    /// The tile at `loc`, which must be a cell of the grid: nothing is
    /// looked up beyond the border.
    pub fn get(&self, loc: Location) -> (r: Tile)
        requires
            self@.contains(loc),
        ensures
            r == self@.tile(loc),
    {
        proof {
            use_type_invariant(self);
            assert(self@.tiles[loc.y as int].len() == self@.width());
        }
        self.map[loc.y][loc.x]
    }

    /// The cell next to `loc` towards `dir`, or `None` where that step
    /// leaves the grid.
    pub fn neighbor(&self, loc: Location, dir: Direction) -> (r: Option<Location>)
        ensures
            r == self@.neighbor(loc, dir),
    {
        proof {
            use_type_invariant(self);
        }
        let moved = match dir {
            Direction::North => loc.north(),
            Direction::South => loc.south(self.lower_right.y),
            Direction::East => loc.east(self.lower_right.x),
            Direction::West => loc.west(),
        };
        match moved {
            Some(n) => if n.x <= self.lower_right.x && n.y <= self.lower_right.y {
                Some(n)
            } else {
                None
            },
            None => None,
        }
    }

    /// The neighbors of `loc` that are pipes with an open side facing `loc`,
    /// each with that side, through which a walk coming from `loc` enters
    /// it. They are looked for to the north, south, west and east, in this
    /// order. The start tile declares no open side, so it is never among
    /// them.
    pub fn connected_to(&self, loc: &Location) -> (result: Vec<(Location, Direction)>)
        ensures
            result@ == self@.connected(*loc),
    {
        let mut result: Vec<(Location, Direction)> = Vec::new();
        if let Some(north) = self.neighbor(*loc, Direction::North) {
            if self.get(north).is_open(Direction::South) {
                result.push((north, Direction::South));
            }
        }
        assert(result@ == self@.entry(*loc, Direction::North));
        if let Some(south) = self.neighbor(*loc, Direction::South) {
            if self.get(south).is_open(Direction::North) {
                result.push((south, Direction::North));
            }
        }
        assert(result@ == self@.entry(*loc, Direction::North) + self@.entry(
            *loc,
            Direction::South,
        ));
        if let Some(west) = self.neighbor(*loc, Direction::West) {
            if self.get(west).is_open(Direction::East) {
                result.push((west, Direction::East));
            }
        }
        assert(result@ == self@.entry(*loc, Direction::North) + self@.entry(
            *loc,
            Direction::South,
        ) + self@.entry(*loc, Direction::West));
        if let Some(east) = self.neighbor(*loc, Direction::East) {
            if self.get(east).is_open(Direction::West) {
                result.push((east, Direction::West));
            }
        }
        result
    }

    /// The next tile of a walk that stands on the pipe at `loc` and entered
    /// it through the side `coming_from`, with the side through which the
    /// walk enters that tile. `None` where the walk runs into a wall or over
    /// the border. A walk stands only on a pipe, and only having entered
    /// through one of its two open sides.
    pub fn next_tile(&self, loc: &Location, coming_from: Direction) -> (r: Option<
        (Location, Direction),
    >)
        requires
            self@.on_pipe((*loc, coming_from)),
        ensures
            r == self@.step((*loc, coming_from)),
    {
        let out = self.get(*loc).way_out(coming_from);
        match self.neighbor(*loc, out) {
            Some(next) => {
                let arrival = out.reverse();
                if self.get(next).accepts(arrival) {
                    Some((next, arrival))
                } else {
                    None
                }
            },
            None => None,
        }
    }

    /// Finds the loop that leaves the start tile and comes back to it, if
    /// there is one. The walk is tried from each connected neighbor of the
    /// start tile in turn; it follows the pipes until it is back on the
    /// start tile, runs into a wall or reaches the border. The locations
    /// that are handed back begin and end with the start tile and name every
    /// cell of the loop in between, each once, in the order of the walk.
    pub fn find_loop(&self) -> (r: Option<Vec<Location>>)
        ensures
            match r {
                Some(path) => self@.traced_loop() == Some(path@) && closed_path(path@)
                    && path@[0] == self@.start && path@.drop_last().no_duplicates(),
                None => self@.traced_loop() is None,
            },
    {
        proof {
            use_type_invariant(self);
        }
        let path_starts = self.connected_to(&self.starting_pos);
        let mut tried: usize = 0;
        assert(path_starts@.skip(0) =~= path_starts@);
        while tried < path_starts.len()
            invariant
                self@.wf(),
                self@.start == self.starting_pos,
                path_starts@ == self@.connected(self@.start),
                0 <= tried <= path_starts.len(),
                self@.first_closing(path_starts@) == self@.first_closing(
                    path_starts@.skip(tried as int),
                ),
            decreases path_starts.len() - tried,
        {
            let first = path_starts[tried];
            let mut current = first.0;
            let mut coming_from = first.1;
            let mut path = vec![self.starting_pos, current];
            let ghost mut steps: nat = 0;
            proof {
                lemma_connected_leave_start(self@, tried as int);
                lemma_first_closing_skip(self@, path_starts@, tried as int);
                lemma_trace_bounded(self@, first, 0);
                assert(path@ =~= self@.walked(first, 0));
            }
            loop
                invariant
                    self@.wf(),
                    self@.start == self.starting_pos,
                    self@.leaves_start(first),
                    self@.trace(first, steps) == Some((current, coming_from)),
                    self@.on_pipe((current, coming_from)),
                    path@ == self@.walked(first, steps),
                    steps < self@.places(),
                    self@.closes(first) ==> self@.traced_loop() == Some(self@.loop_from(first)),
                ensures
                    !self@.closes(first),
                decreases self@.places() - steps,
            {
                match self.next_tile(&current, coming_from) {
                    Some((next_loc, direction)) => {
                        path.push(next_loc);
                        proof {
                            lemma_walk_on(
                                self@,
                                first,
                                steps,
                                (current, coming_from),
                                (next_loc, direction),
                            );
                        }
                        if next_loc == self.starting_pos {
                            proof {
                                lemma_walk_closed(self@, first, steps + 1);
                                lemma_loop_is_simple(self@);
                            }
                            return Some(path);
                        }
                        current = next_loc;
                        coming_from = direction;
                        proof {
                            steps = steps + 1;
                        }
                    },
                    None => {
                        proof {
                            lemma_walk_stuck(self@, first, steps, (current, coming_from));
                        }
                        break ;
                    },
                }
            }
            tried += 1;
        }
        None
    }
}

} // verus!
