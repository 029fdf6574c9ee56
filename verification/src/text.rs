//! Reading a maze from text: one row of tiles per line.

use vstd::prelude::*;
use vstd::slice::slice_subrange;
use vstd::string::StringSliceAdditionalSpecFns;
use crate::grid::{rows_of, Grid};
use crate::location::Location;
use crate::maze::{checked, no_other_start, start_at, Maze, MazeError};
use crate::search::{first_index, position_of};
use crate::tile::{Tile, BYTE_START};

verus! {

/// The line feed that ends a line.
pub const BYTE_NEWLINE: u8 = 0x0a;

/// The lines of a text: what stands between its line feeds. A line feed at
/// the very end of the text begins no further line.
pub open spec fn lines(text: Seq<u8>) -> Seq<Seq<u8>>
    decreases text.len(),
{
    let end = first_index(text, BYTE_NEWLINE);
    if text.len() == 0 {
        Seq::empty()
    } else if 0 <= end < text.len() {
        seq![text.take(end)] + lines(text.skip(end + 1))
    } else {
        seq![text]
    }
}

/// A space, a tab or a carriage return.
pub open spec fn is_blank(b: u8) -> bool {
    b == 0x20 || b == 0x09 || b == 0x0d
}

/// A line without the blanks at its end.
pub open spec fn trimmed(line: Seq<u8>) -> Seq<u8>
    decreases line.len(),
{
    if line.len() > 0 && is_blank(line.last()) {
        trimmed(line.drop_last())
    } else {
        line
    }
}

/// The tiles that the characters of a line stand for.
pub open spec fn tiles_of(line: Seq<u8>) -> Seq<Tile> {
    Seq::new(line.len(), |x: int| Tile::of_byte(line[x]))
}

/// The rows of tiles that a text holds: one for each line, blanks at the
/// end of a line left out.
pub open spec fn tile_rows(text: Seq<u8>) -> Seq<Seq<Tile>> {
    Seq::new(lines(text).len(), |y: int| tiles_of(trimmed(lines(text)[y])))
}

/// The maze that a text holds, or the reason why it holds none: no start
/// tile, rows of different lengths, or more than one start tile. The
/// reasons are tried in this order.
pub open spec fn read_maze(text: Seq<u8>) -> Result<Maze, MazeError> {
    let tiles = tile_rows(text);
    if exists|loc: Location| start_at(tiles, loc) {
        checked(tiles, choose|loc: Location| start_at(tiles, loc))
    } else {
        Err(MazeError::NoStart)
    }
}

/// Which start tile the rows are checked with makes no difference.
pub proof fn lemma_checked_any_start(tiles: Seq<Seq<Tile>>, a: Location, b: Location)
    requires
        start_at(tiles, a),
        start_at(tiles, b),
    ensures
        checked(tiles, a) is Ok ==> a == b,
        checked(tiles, a) is Err ==> checked(tiles, a) == checked(tiles, b),
{
    if !no_other_start(tiles, a) && no_other_start(tiles, b) {
        let other = choose|other: Location| #[trigger] start_at(tiles, other) && other != a;
        assert(other == b);
    }
}

/// The line without the blanks at its end.
pub fn trim_line(line: &[u8]) -> (r: &[u8])
    ensures
        r@ == trimmed(line@),
{
    let mut end = line.len();
    assert(line@.take(end as int) =~= line@);
    while end > 0 && (line[end - 1] == 0x20 || line[end - 1] == 0x09 || line[end - 1] == 0x0d)
        invariant
            0 <= end <= line@.len(),
            trimmed(line@) == trimmed(line@.take(end as int)),
        decreases end,
    {
        proof {
            assert(line@.take(end as int).drop_last() =~= line@.take(end as int - 1));
        }
        end -= 1;
    }
    proof {
        if end > 0 {
            assert(line@.take(end as int).last() == line@[end as int - 1]);
        }
    }
    slice_subrange(line, 0, end)
}

/// The tiles that the characters of the line stand for.
pub fn read_row(line: &[u8]) -> (row: Vec<Tile>)
    ensures
        row@ == tiles_of(line@),
{
    let mut row: Vec<Tile> = Vec::new();
    let mut x: usize = 0;
    while x < line.len()
        invariant
            0 <= x <= line@.len(),
            row@ == tiles_of(line@.take(x as int)),
        decreases line@.len() - x,
    {
        row.push(Tile::from_byte(line[x]));
        x += 1;
        proof {
            assert(row@ =~= tiles_of(line@.take(x as int)));
        }
    }
    proof {
        assert(line@.take(line@.len() as int) =~= line@);
    }
    row
}

/// Reads a maze from `input`, one row per line. Blanks at the end of a line
/// are no part of its row; any other character that is none of the six
/// pipes nor `S` is ground. The text is refused if it holds no `S`, if its
/// rows differ in length, or if it holds more than one `S`.
pub fn parse(input: &str) -> (r: Result<Grid, MazeError>)
    ensures
        match r {
            Ok(g) => read_maze(input.spec_bytes()) == Ok::<Maze, MazeError>(g@),
            Err(e) => read_maze(input.spec_bytes()) == Err::<Maze, MazeError>(e),
        },
{
    let text = input.as_bytes();
    let mut start_pos: Option<Location> = None;
    let mut map: Vec<Vec<Tile>> = Vec::new();
    let mut from: usize = 0;
    let ghost mut done: Seq<Seq<u8>> = Seq::empty();
    proof {
        assert(text@.skip(0) =~= text@);
        assert(done + lines(text@) =~= lines(text@));
    }
    while from < text.len()
        invariant
            0 <= from <= text@.len(),
            lines(text@) == done + lines(text@.skip(from as int)),
            map@.len() == done.len(),
            forall|y: int| 0 <= y < done.len() ==> (#[trigger] map@[y])@ == tiles_of(trimmed(done[y])),
            match start_pos {
                Some(loc) => start_at(rows_of(map), loc),
                None => forall|loc: Location| !start_at(rows_of(map), loc),
            },
        decreases text@.len() - from,
    {
        let rest = slice_subrange(text, from, text.len());
        let length = position_of(BYTE_NEWLINE, rest);
        let line = trim_line(slice_subrange(rest, 0, length));
        let ghost before = rows_of(map);
        let y = map.len();
        let found = if start_pos.is_none() {
            position_of(BYTE_START, line)
        } else {
            line.len()
        };
        map.push(read_row(line));
        proof {
            assert(rest@ =~= text@.skip(from as int));
            let raw = rest@.take(length as int);
            assert(rest@.subrange(0, length as int) =~= raw);
            if length < rest.len() {
                assert(rest@.skip(length + 1) =~= text@.skip(from + length + 1));
                assert(done + (seq![raw] + lines(rest@.skip(length + 1))) =~= done.push(raw)
                    + lines(rest@.skip(length + 1)));
            } else {
                assert(raw =~= rest@);
                assert(lines(text@.skip(text@.len() as int)) =~= Seq::<Seq<u8>>::empty());
                assert(done + seq![raw] =~= done.push(raw) + Seq::<Seq<u8>>::empty());
            }
            done = done.push(raw);
            let after = rows_of(map);
            assert(after.len() == before.len() + 1);
            assert forall|loc: Location| loc.y < y implies start_at(after, loc) == start_at(
                before,
                loc,
            ) by {
                assert(after[loc.y as int] == before[loc.y as int]);
            }
            assert(after[y as int] == tiles_of(line@));
            match start_pos {
                Some(loc) => {
                    assert(start_at(before, loc));
                    assert(start_at(after, loc));
                },
                None => {
                    if found < line.len() {
                        assert(start_at(after, Location { x: found, y: y }));
                    } else {
                        assert forall|loc: Location| !start_at(after, loc) by {
                            if loc.y < y {
                                assert(!start_at(before, loc));
                            }
                        }
                    }
                },
            }
        }
        if start_pos.is_none() && found < line.len() {
            start_pos = Some(Location { x: found, y: y });
        }
        from = if length < rest.len() {
            from + length + 1
        } else {
            text.len()
        };
    }
    proof {
        assert(lines(text@.skip(from as int)) =~= Seq::<Seq<u8>>::empty());
        assert(done + Seq::<Seq<u8>>::empty() =~= done);
        assert(rows_of(map) =~= tile_rows(text@));
    }
    match start_pos {
        Some(loc) => {
            proof {
                let tiles = tile_rows(text@);
                lemma_checked_any_start(tiles, loc, choose|l: Location| start_at(tiles, l));
                lemma_checked_any_start(tiles, choose|l: Location| start_at(tiles, l), loc);
            }
            Grid::new(loc, map)
        },
        None => Err(MazeError::NoStart),
    }
}

} // verus!
