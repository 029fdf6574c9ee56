//! Finds the single loop of pipes in a grid of tiles, measures it, and counts
//! the cells that it encloses.
//!
//! A maze is written as text, one row per line: `|`, `-`, `L`, `J`, `7` and
//! `F` are pipes with two open sides each, `S` is the start tile, whose own
//! shape is not written down, and everything else is ground. The loop is
//! found by walking from the start tile through the pipes until the walk is
//! back where it began. Two questions are answered: how far from the start
//! is the farthest point of the loop (`p1`), and how many cells does the
//! loop enclose (`p2`).
//!
//! - `tile`, `location`: the tiles, the four directions and the coordinates.
//! - `search`: finding a byte among bytes.
//! - `text`: reading a maze from text.
//! - `maze`: the maze as a value of mathematics, its walks and its loop.
//! - `walk`: what is proved of every walk.
//! - `grid`: the maze in memory, and the walk that finds the loop.
//! - `area`: the enclosed cells, from the shoelace formula and Pick's
//!   theorem.
//! - `github`: both answers once more, from the set of the loop's cells and
//!   a scan of the rows.

use vstd::prelude::*;
use vstd::string::StringSliceAdditionalSpecFns;
use crate::area::{edges, enclosed, lemma_closed_path_even, shoelace_with_picks_theorem};
use crate::maze::MazeError;
use crate::text::{parse, read_maze};

pub mod area;
pub mod github;
pub mod grid;
pub mod location;
pub mod maze;
pub mod search;
pub mod text;
pub mod tile;
pub mod walk;

verus! {

/// The answer to the first question for a text: half the length of the
/// loop through the start tile, which is the distance from the start to the
/// point of the loop that is farthest from it; 0 where the maze has no such
/// loop. A text that holds no maze has no answer.
pub open spec fn farthest_distance(text: Seq<u8>) -> Result<int, MazeError> {
    match read_maze(text) {
        Ok(maze) => match maze.traced_loop() {
            Some(path) => Ok(edges(path) / 2),
            None => Ok(0),
        },
        Err(e) => Err(e),
    }
}

/// The answer to the second question for a text: the number of cells that
/// the loop through the start tile encloses; 0 where the maze has no such
/// loop. A text that holds no maze has no answer, and neither has a loop for
/// which the formula leaves the range of `usize`.
pub open spec fn enclosed_cells(text: Seq<u8>) -> Result<int, MazeError> {
    match read_maze(text) {
        Ok(maze) => match maze.traced_loop() {
            Some(path) => if 0 <= enclosed(path) <= usize::MAX {
                Ok(enclosed(path))
            } else {
                Err(MazeError::AreaOutOfRange)
            },
            None => Ok(0),
        },
        Err(e) => Err(e),
    }
}

/// Half the length of the loop in the maze that `input` holds, or 0 if no
/// loop passes through the start tile.
pub fn p1(input: &str) -> (r: Result<usize, MazeError>)
    ensures
        match r {
            Ok(n) => farthest_distance(input.spec_bytes()) == Ok::<int, MazeError>(n as int),
            Err(e) => farthest_distance(input.spec_bytes()) == Err::<int, MazeError>(e),
        },
{
    let map = match parse(input) {
        Ok(map) => map,
        Err(e) => {
            return Err(e);
        },
    };
    if let Some(path) = map.find_loop() {
        proof {
            lemma_closed_path_even(path@);
        }
        Ok(path.len() / 2)
    } else {
        Ok(0)
    }
}

/// The number of cells that the loop in the maze of `input` encloses, or 0
/// if no loop passes through the start tile.
pub fn p2(input: &str) -> (r: Result<usize, MazeError>)
    ensures
        match r {
            Ok(n) => enclosed_cells(input.spec_bytes()) == Ok::<int, MazeError>(n as int),
            Err(e) => enclosed_cells(input.spec_bytes()) == Err::<int, MazeError>(e),
        },
{
    let map = match parse(input) {
        Ok(map) => map,
        Err(e) => {
            return Err(e);
        },
    };
    if let Some(path) = map.find_loop() {
        match shoelace_with_picks_theorem(path) {
            Some(n) => Ok(n),
            None => Err(MazeError::AreaOutOfRange),
        }
    } else {
        Ok(0)
    }
}

} // verus!
