//! The two answers found another way: the cells of the loop are kept in a
//! hash set, the first answer is half their number, and the second counts,
//! row by row, the cells that lie to the right of an odd number of loop
//! cells that connect to the row above.

use vstd::prelude::*;
use vstd::string::StringSliceAdditionalSpecFns;
use hashbrown::HashSet;
use crate::area::edges;
use crate::grid::Grid;
use crate::location::Location;
use crate::maze::{shifted, Maze, MazeError};
use crate::text::{parse, read_maze};
use crate::tile::{Direction, Tile};
use crate::walk::{lemma_loop_is_closed_path, lemma_loop_is_simple};
use crate::farthest_distance;

verus! {

/// A set of cells, each named by its row and its column, in this order.
///
/// It holds a `hashbrown::HashSet`. Verus sees nothing of it but what the
/// functions below state of `cells_of`.
#[verifier::external_body]
pub struct CellSet {
    cells: HashSet<(usize, usize)>,
}

/// The cells that a set holds.
pub uninterp spec fn cells_of(set: CellSet) -> Set<(usize, usize)>;

/// A set that holds no cell.
///
/// This is `hashbrown::HashSet::new`, which creates an empty set.
#[verifier::external_body]
fn no_cells() -> (set: CellSet)
    ensures
        cells_of(set) == Set::<(usize, usize)>::empty(),
{
    CellSet { cells: HashSet::new() }
}

/// Puts `cell` into the set and says whether it was new to it.
///
/// This is `hashbrown::HashSet::insert`, which adds the value and returns
/// `true` if the set did not have it and `false` if it did. A pair of `usize`
/// is hashed and compared by its two numbers.
#[verifier::external_body]
fn add_cell(set: &mut CellSet, cell: (usize, usize)) -> (fresh: bool)
    ensures
        cells_of(*final(set)) == cells_of(*old(set)).insert(cell),
        fresh == !cells_of(*old(set)).contains(cell),
{
    set.cells.insert(cell)
}

/// Whether the set holds `cell`.
///
/// This is `hashbrown::HashSet::contains`, which returns `true` if the set
/// contains the value.
#[verifier::external_body]
fn has_cell(set: &CellSet, cell: (usize, usize)) -> (held: bool)
    ensures
        held == cells_of(*set).contains(cell),
{
    set.cells.contains(&cell)
}

/// The number of cells in the set.
///
/// This is `hashbrown::HashSet::len`, which returns the number of elements
/// in the set.
#[verifier::external_body]
fn count_cells(set: &CellSet) -> (n: usize)
    ensures
        n == cells_of(*set).len(),
{
    set.cells.len()
}

/// The cells that a path passes through.
pub open spec fn cells_on(path: Seq<Location>) -> Set<(usize, usize)> {
    Set::new(|cell: (usize, usize)| path.contains(Location { x: cell.1, y: cell.0 }))
}

/// Whether the loop `path` leaves the start tile of `m` to the north: the
/// cell above the start tile comes right after it or right before its
/// return.
pub open spec fn start_opens_north(m: Maze, path: Seq<Location>) -> bool {
    path.len() >= 3 && (shifted(m.start, Direction::North) == Some(path[1]) || shifted(
        m.start,
        Direction::North,
    ) == Some(path[path.len() - 2]))
}

/// Whether the tile at `loc` connects to the row above: a pipe that is open
/// to the north, or the start tile where `start_north` says so.
pub open spec fn opens_north(m: Maze, start_north: bool, loc: Location) -> bool {
    if m.tile(loc) == Tile::Start {
        start_north
    } else {
        m.tile(loc).opens(Direction::North)
    }
}

/// Whether the cell in row `y` and column `x` is one of `cells` and connects
/// to the row above.
pub open spec fn crossing(
    m: Maze,
    cells: Set<(usize, usize)>,
    start_north: bool,
    y: usize,
    x: usize,
) -> bool {
    cells.contains((y, x)) && opens_north(m, start_north, Location { x: x, y: y })
}

/// The number of crossings in row `y` left of column `x`.
pub open spec fn crossings(
    m: Maze,
    cells: Set<(usize, usize)>,
    start_north: bool,
    y: usize,
    x: nat,
) -> nat
    decreases x,
{
    if x == 0 {
        0
    } else {
        let before = crossings(m, cells, start_north, y, (x - 1) as nat);
        if crossing(m, cells, start_north, y, (x - 1) as usize) {
            before + 1
        } else {
            before
        }
    }
}

/// Whether the cell in row `y` and column `x` is inside: it is none of
/// `cells`, and the crossings to its left in its row are odd in number.
pub open spec fn inside(
    m: Maze,
    cells: Set<(usize, usize)>,
    start_north: bool,
    y: usize,
    x: usize,
) -> bool {
    !cells.contains((y, x)) && crossings(m, cells, start_north, y, x as nat) % 2 == 1
}

/// The number of cells inside in row `y` left of column `x`.
pub open spec fn inside_in_row(
    m: Maze,
    cells: Set<(usize, usize)>,
    start_north: bool,
    y: usize,
    x: nat,
) -> nat
    decreases x,
{
    if x == 0 {
        0
    } else {
        let before = inside_in_row(m, cells, start_north, y, (x - 1) as nat);
        if inside(m, cells, start_north, y, (x - 1) as usize) {
            before + 1
        } else {
            before
        }
    }
}

/// The number of cells inside in the rows above row `y`.
pub open spec fn inside_above(m: Maze, cells: Set<(usize, usize)>, start_north: bool, y: nat) -> nat
    decreases y,
{
    if y == 0 {
        0
    } else {
        inside_above(m, cells, start_north, (y - 1) as nat) + inside_in_row(
            m,
            cells,
            start_north,
            (y - 1) as usize,
            m.width(),
        )
    }
}

/// The number of cells of `m` inside the loop `path`.
pub open spec fn scanned(m: Maze, path: Seq<Location>) -> nat {
    inside_above(m, cells_on(path), start_opens_north(m, path), m.height())
}

/// The second answer for a text, by rows: the number of cells inside the
/// loop through the start tile; 0 where the maze has no such loop. A text
/// that holds no maze has no answer, and neither has a count beyond `u64`.
pub open spec fn scanned_cells(text: Seq<u8>) -> Result<int, MazeError> {
    match read_maze(text) {
        Ok(maze) => match maze.traced_loop() {
            Some(path) => if scanned(maze, path) <= u64::MAX {
                Ok(scanned(maze, path) as int)
            } else {
                Err(MazeError::AreaOutOfRange)
            },
            None => Ok(0),
        },
        Err(e) => Err(e),
    }
}

/// The sides on which a tile is open: north, east, south and west, in this
/// order.
pub fn connections(tile: Tile) -> (open: [bool; 4])
    ensures
        open[0] == tile.opens(Direction::North),
        open[1] == tile.opens(Direction::East),
        open[2] == tile.opens(Direction::South),
        open[3] == tile.opens(Direction::West),
{
    match tile {
        Tile::Vertical => [true, false, true, false],
        Tile::Horizontal => [false, true, false, true],
        Tile::BendNE => [true, true, false, false],
        Tile::BendNW => [true, false, false, true],
        Tile::BendSW => [false, false, true, true],
        Tile::BendSE => [false, true, true, false],
        _ => [false, false, false, false],
    }
}

/// The cells of the loop through the start tile, if there is one.
fn find_loop(grid: &Grid) -> (r: Option<CellSet>)
    ensures
        match r {
            Some(seen) => grid@.traced_loop() is Some && cells_of(seen) == cells_on(
                grid@.traced_loop().unwrap(),
            ),
            None => grid@.traced_loop() is None,
        },
{
    match grid.find_loop() {
        Some(path) => Some(loop_cells(&path)),
        None => None,
    }
}

/// Collects the cells of a path.
fn loop_cells(path: &Vec<Location>) -> (seen: CellSet)
    ensures
        cells_of(seen) == cells_on(path@),
{
    let mut seen = no_cells();
    let mut i: usize = 0;
    assert(cells_on(path@.take(0)) =~= Set::<(usize, usize)>::empty());
    while i < path.len()
        invariant
            0 <= i <= path.len(),
            cells_of(seen) == cells_on(path@.take(i as int)),
        decreases path.len() - i,
    {
        let loc = path[i];
        add_cell(&mut seen, (loc.y, loc.x));
        proof {
            let before = path@.take(i as int);
            let after = path@.take(i + 1);
            assert(after =~= before.push(loc));
            assert forall|cell: (usize, usize)|
                cells_on(after).contains(cell) == cells_on(before).insert((loc.y, loc.x)).contains(
                    cell,
                ) by {
                let l = Location { x: cell.1, y: cell.0 };
                if before.contains(l) {
                    let j = choose|j: int| 0 <= j < before.len() && before[j] == l;
                    assert(after[j] == l);
                }
                if l == loc {
                    assert(after[i as int] == l);
                }
            }
            assert(cells_on(after) =~= cells_on(before).insert((loc.y, loc.x)));
        }
        i += 1;
    }
    assert(path@.take(path.len() as int) =~= path@);
    seen
}

/// A loop has as many cells as edges.
pub proof fn lemma_loop_cells(m: Maze)
    requires
        m.wf(),
        m.traced_loop() is Some,
    ensures
        cells_on(m.traced_loop().unwrap()).finite(),
        cells_on(m.traced_loop().unwrap()).len() == edges(m.traced_loop().unwrap()),
{
    let path = m.traced_loop().unwrap();
    lemma_loop_is_simple(m);
    lemma_loop_is_closed_path(m);
    let open = path.drop_last();
    let cells = Seq::new(open.len(), |i: int| (open[i].y, open[i].x));
    assert(cells.no_duplicates());
    cells.unique_seq_to_set();
    assert forall|cell: (usize, usize)| cells.to_set().contains(cell) == cells_on(path).contains(
        cell,
    ) by {
        let l = Location { x: cell.1, y: cell.0 };
        if cells.contains(cell) {
            let i = choose|i: int| 0 <= i < cells.len() && cells[i] == cell;
            assert(path[i] == l);
        }
        if path.contains(l) {
            let i = choose|i: int| 0 <= i < path.len() && path[i] == l;
            if i < open.len() {
                assert(cells[i] == cell);
            } else {
                assert(cells[0] == cell);
            }
        }
    }
    assert(cells.to_set() =~= cells_on(path));
    vstd::seq_lib::seq_to_set_is_finite(cells);
}

proof fn lemma_inside_bounds(
    m: Maze,
    cells: Set<(usize, usize)>,
    start_north: bool,
    y: nat,
    x: nat,
)
    ensures
        inside_in_row(m, cells, start_north, y as usize, x) <= x,
        inside_above(m, cells, start_north, y) <= y * m.width(),
    decreases y, x,
{
    if x > 0 {
        lemma_inside_bounds(m, cells, start_north, y, (x - 1) as nat);
    }
    if y > 0 {
        lemma_inside_bounds(m, cells, start_north, (y - 1) as nat, 0);
        lemma_inside_bounds(m, cells, start_north, (y - 1) as nat, m.width());
        assert(y * m.width() == (y - 1) * m.width() + m.width()) by (nonlinear_arith);
    }
}

proof fn lemma_count_fits(rows: int, columns: int, y: int, x: int, above: int, row: int)
    by (nonlinear_arith)
    requires
        0 <= y < rows <= 0xffff_ffff_ffff_ffff,
        0 <= x <= columns <= 0xffff_ffff_ffff_ffff,
        0 <= above <= y * columns,
        0 <= row <= x,
    ensures
        above + row <= 0xffff_ffff_ffff_fffe_0000_0000_0000_0001,
{
    assert(y * columns + columns <= rows * columns);
    assert(rows * columns <= 0xffff_ffff_ffff_ffff * 0xffff_ffff_ffff_ffff);
}

/// Half the number of cells on the loop in the maze that `input` holds, or
/// 0 if no loop passes through the start tile.
pub fn p1(input: &str) -> (r: Result<u64, MazeError>)
    ensures
        match r {
            Ok(n) => farthest_distance(input.spec_bytes()) == Ok::<int, MazeError>(n as int),
            Err(e) => farthest_distance(input.spec_bytes()) == Err::<int, MazeError>(e),
        },
{
    let grid = match parse(input) {
        Ok(grid) => grid,
        Err(e) => {
            return Err(e);
        },
    };
    match find_loop(&grid) {
        Some(pipe_loop) => {
            proof {
                lemma_loop_cells(grid@);
            }
            Ok((count_cells(&pipe_loop) / 2) as u64)
        },
        None => Ok(0),
    }
}

/// The number of cells inside the loop in the maze that `input` holds,
/// counted row by row, or 0 if no loop passes through the start tile.
pub fn p2(input: &str) -> (r: Result<u64, MazeError>)
    ensures
        match r {
            Ok(n) => scanned_cells(input.spec_bytes()) == Ok::<int, MazeError>(n as int),
            Err(e) => scanned_cells(input.spec_bytes()) == Err::<int, MazeError>(e),
        },
{
    let grid = match parse(input) {
        Ok(grid) => grid,
        Err(e) => {
            return Err(e);
        },
    };
    let path = match grid.find_loop() {
        Some(path) => path,
        None => {
            return Ok(0);
        },
    };
    let pipe_loop = loop_cells(&path);
    let start = grid.starting_pos();
    let start_north = match start.north() {
        Some(above) => path.len() >= 3 && ((above.x == path[1].x && above.y == path[1].y) || (
        above.x == path[path.len() - 2].x && above.y == path[path.len() - 2].y)),
        None => false,
    };
    let height = grid.height();
    let width = grid.width();
    let ghost m = grid@;
    let ghost cells = cells_on(path@);
    let mut count: u128 = 0;
    let mut y: usize = 0;
    while y < height
        invariant
            m == grid@,
            height == m.height(),
            width == m.width(),
            cells == cells_of(pipe_loop),
            0 <= y <= height,
            count == inside_above(m, cells, start_north, y as nat),
        decreases height - y,
    {
        let mut is_inside = false;
        let mut x: usize = 0;
        while x < width
            invariant
                m == grid@,
                height == m.height(),
                width == m.width(),
                cells == cells_of(pipe_loop),
                0 <= y < height,
                0 <= x <= width,
                is_inside == (crossings(m, cells, start_north, y, x as nat) % 2 == 1),
                count == inside_above(m, cells, start_north, y as nat) + inside_in_row(
                    m,
                    cells,
                    start_north,
                    y,
                    x as nat,
                ),
            decreases width - x,
        {
            proof {
                lemma_inside_bounds(m, cells, start_north, y as nat, x as nat);
                lemma_count_fits(
                    height as int,
                    width as int,
                    y as int,
                    x as int,
                    inside_above(m, cells, start_north, y as nat) as int,
                    inside_in_row(m, cells, start_north, y, x as nat) as int,
                );
            }
            if !has_cell(&pipe_loop, (y, x)) {
                if is_inside {
                    count = count + 1;
                }
            } else {
                let tile = grid.get(Location { x: x, y: y });
                let north = match tile {
                    Tile::Start => start_north,
                    _ => connections(tile)[0],
                };
                if north {
                    is_inside = !is_inside;
                }
            }
            x += 1;
        }
        y += 1;
    }
    if count <= u64::MAX as u128 {
        Ok(count as u64)
    } else {
        Err(MazeError::AreaOutOfRange)
    }
}

} // verus!
