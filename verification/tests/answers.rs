use pipe_maze::area::shoelace_with_picks_theorem;
use pipe_maze::grid::Grid;
use pipe_maze::location::Location;
use pipe_maze::maze::MazeError;
use pipe_maze::search::position_of;
use pipe_maze::text::{parse, read_row, trim_line};
use pipe_maze::tile::Direction::{East, North, South, West};
use pipe_maze::tile::{Direction, Tile};
use pipe_maze::{github, p1, p2};

fn text(rows: &[&str]) -> String {
    rows.join("\n")
}

fn at(x: usize, y: usize) -> Location {
    Location { x, y }
}

const SQUARE: [&str; 5] = [".....", ".S-7.", ".|.|.", ".L-J.", "....."];

const NESTED: [&str; 9] = [
    "...........",
    ".S-------7.",
    ".|F-----7|.",
    ".||.....||.",
    ".||.....||.",
    ".|L-7.F-J|.",
    ".|..|.|..|.",
    ".L--J.L--J.",
    "...........",
];

const WINDING: [&str; 5] = ["..F7.", ".FJ|.", "SJ.L7", "|F--J", "LJ..."];

const SAMPLE: [&str; 10] = [
    "FF7FSF7F7F7F7F7F---7",
    "L|LJ||||||||||||F--J",
    "FL-7LJLJ||||||LJL-77",
    "F--JF--7||LJLJIF7FJ-",
    "L---JF-JLJIIIIFJLJJ7",
    "|F|F-JF---7IIIL7L|7|",
    "|FFJF7L7F-JF7IIL---7",
    "7-L-JL7||F7|L7F-7F7|",
    "L.L7LFJ|||||FJL7||LJ",
    "L7JLJL-JLJLJL--JLJ.L",
];

#[test]
fn square_loop_has_length_eight_and_one_cell_inside() {
    let input = text(&SQUARE);
    assert_eq!(p1(&input), Ok(4));
    assert_eq!(p2(&input), Ok(1));
    assert_eq!(github::p1(&input), Ok(4));
    assert_eq!(github::p2(&input), Ok(1));
}

#[test]
fn nested_loop_encloses_four_cells() {
    let input = text(&NESTED);
    assert_eq!(p2(&input), Ok(4));
    assert_eq!(github::p2(&input), Ok(4));
    assert_eq!(p1(&input), Ok(23));
    assert_eq!(github::p1(&input), Ok(23));
}

#[test]
fn winding_loop_is_eight_steps_deep() {
    let input = text(&WINDING);
    assert_eq!(p1(&input), Ok(8));
    assert_eq!(github::p1(&input), Ok(8));
    assert_eq!(p2(&input), Ok(1));
    assert_eq!(github::p2(&input), Ok(1));
}

#[test]
fn isolated_start_has_no_loop() {
    let input = text(&["...", ".S.", "..."]);
    assert_eq!(p1(&input), Ok(0));
    assert_eq!(p2(&input), Ok(0));
    assert_eq!(github::p1(&input), Ok(0));
    assert_eq!(github::p2(&input), Ok(0));
    let map = parse(&input).unwrap();
    assert_eq!(map.connected_to(&map.starting_pos()), vec![]);
    assert!(map.find_loop().is_none());
}

#[test]
fn start_among_pipes_that_turn_away_is_on_no_loop() {
    let input = text(&["F-7", "|S|", "L-J"]);
    let map = parse(&input).unwrap();
    assert_eq!(map.starting_pos(), at(1, 1));
    assert_eq!(map.connected_to(&at(1, 1)), vec![]);
    assert_eq!(p1(&input), Ok(0));
    assert_eq!(p2(&input), Ok(0));
    assert_eq!(github::p1(&input), Ok(0));
    assert_eq!(github::p2(&input), Ok(0));
}

#[test]
fn loop_without_start_tile_is_refused() {
    let input = text(&["F-7", "|.|", "L-J"]);
    assert_eq!(parse(&input).err(), Some(MazeError::NoStart));
    assert_eq!(p1(&input), Err(MazeError::NoStart));
    assert_eq!(p2(&input), Err(MazeError::NoStart));
    assert_eq!(github::p1(&input), Err(MazeError::NoStart));
    assert_eq!(github::p2(&input), Err(MazeError::NoStart));
}

#[test]
fn sample_answers_agree_between_the_two_ways() {
    let input = text(&SAMPLE);
    assert_eq!(p1(&input), Ok(80));
    assert_eq!(p2(&input), Ok(10));
    assert_eq!(github::p1(&input), Ok(80));
    assert_eq!(github::p2(&input), Ok(10));
}

#[test]
fn answers_do_not_change_when_asked_again() {
    for rows in [&SQUARE[..], &NESTED[..], &WINDING[..], &SAMPLE[..], &["F-7", "|.|", "L-J"][..]] {
        let input = text(rows);
        assert_eq!(p1(&input), p1(&input));
        assert_eq!(p2(&input), p2(&input));
        assert_eq!(github::p1(&input), github::p1(&input));
        assert_eq!(github::p2(&input), github::p2(&input));
    }
}

#[test]
fn empty_text_has_no_start() {
    assert_eq!(parse("").err(), Some(MazeError::NoStart));
    assert_eq!(parse("\n").err(), Some(MazeError::NoStart));
    assert_eq!(p1(""), Err(MazeError::NoStart));
    assert_eq!(p2(""), Err(MazeError::NoStart));
}

#[test]
fn rows_of_different_lengths_are_refused() {
    assert_eq!(parse("S-7\n|.|.\nL-J").err(), Some(MazeError::RaggedRows));
    assert_eq!(parse("..\nS").err(), Some(MazeError::RaggedRows));
    assert_eq!(p1("S-7\n|.|.\nL-J"), Err(MazeError::RaggedRows));
    assert_eq!(p2("S-7\n|.|.\nL-J"), Err(MazeError::RaggedRows));
    assert_eq!(github::p1("S-7\n|.|.\nL-J"), Err(MazeError::RaggedRows));
    assert_eq!(github::p2("S-7\n|.|.\nL-J"), Err(MazeError::RaggedRows));
}

#[test]
fn an_empty_line_is_a_row_of_its_own() {
    assert_eq!(parse("S.\n\n..").err(), Some(MazeError::RaggedRows));
    assert_eq!(parse("S.\n..\n\n").err(), Some(MazeError::RaggedRows));
    assert!(parse("S.\n..\n").is_ok());
}

#[test]
fn a_second_start_is_refused() {
    assert_eq!(parse("S-7\n|.|\nL-S").err(), Some(MazeError::MultipleStarts));
    assert_eq!(parse("SS").err(), Some(MazeError::MultipleStarts));
    assert_eq!(p1("S.S"), Err(MazeError::MultipleStarts));
    assert_eq!(p2("S.S"), Err(MazeError::MultipleStarts));
}

#[test]
fn a_missing_start_is_reported_before_ragged_rows_and_those_before_a_second_start() {
    assert_eq!(parse("...\n..").err(), Some(MazeError::NoStart));
    assert_eq!(parse("S.S\n..").err(), Some(MazeError::RaggedRows));
}

#[test]
fn start_is_found_where_it_stands() {
    assert_eq!(parse("S").unwrap().starting_pos(), at(0, 0));
    assert_eq!(parse("...\n..S").unwrap().starting_pos(), at(2, 1));
    assert_eq!(parse(".S.\n...\n").unwrap().starting_pos(), at(1, 0));
    assert_eq!(parse(&text(&SAMPLE)).unwrap().starting_pos(), at(4, 0));
}

#[test]
fn lines_may_end_in_blanks_or_carriage_returns() {
    let plain = text(&SQUARE);
    let dos = SQUARE.join("\r\n") + "\r\n";
    let padded = SQUARE.join(" \t\n");
    for input in [dos, padded] {
        let map = parse(&input).unwrap();
        assert_eq!(map.width(), 5);
        assert_eq!(map.height(), 5);
        assert_eq!(p1(&input), p1(&plain));
        assert_eq!(p2(&input), p2(&plain));
    }
}

#[test]
fn other_characters_are_ground() {
    let map = parse("SxI O?").unwrap();
    assert_eq!(map.width(), 6);
    for x in 1..6 {
        assert_eq!(map.get(at(x, 0)), Tile::Ground);
    }
    assert_eq!(map.get(at(0, 0)), Tile::Start);
}

#[test]
fn position_of_finds_the_first_occurrence() {
    assert_eq!(position_of(b'S', b"..S.S"), 2);
    assert_eq!(position_of(b'S', b"S"), 0);
    assert_eq!(position_of(b'S', b"....."), 5);
    assert_eq!(position_of(b'\n', b""), 0);
    assert_eq!(position_of(b'\n', b"ab\ncd\n"), 2);
}

#[test]
fn trim_line_drops_blanks_at_the_end_only() {
    assert_eq!(trim_line(b".S. \t\r"), b".S.");
    assert_eq!(trim_line(b" .S."), b" .S.");
    assert_eq!(trim_line(b". ."), b". .");
    assert_eq!(trim_line(b"   "), b"");
    assert_eq!(trim_line(b""), b"");
}

#[test]
fn read_row_reads_every_tile() {
    assert_eq!(
        read_row(b"|-LJ7F.S#"),
        vec![
            Tile::Vertical,
            Tile::Horizontal,
            Tile::BendNE,
            Tile::BendNW,
            Tile::BendSW,
            Tile::BendSE,
            Tile::Ground,
            Tile::Start,
            Tile::Ground,
        ]
    );
    assert_eq!(read_row(b""), vec![]);
}

#[test]
fn tiles_open_on_their_two_sides() {
    let table = [
        (b'|', [true, true, false, false]),
        (b'-', [false, false, true, true]),
        (b'L', [true, false, true, false]),
        (b'J', [true, false, false, true]),
        (b'7', [false, true, false, true]),
        (b'F', [false, true, true, false]),
        (b'.', [false, false, false, false]),
        (b'S', [false, false, false, false]),
    ];
    for (byte, open) in table {
        let tile = Tile::from_byte(byte);
        for (side, expected) in [North, South, East, West].into_iter().zip(open) {
            assert_eq!(tile.is_open(side), expected);
            assert_eq!(tile.accepts(side), expected || tile == Tile::Start);
        }
    }
}

#[test]
fn every_tile_is_read_back_from_its_character() {
    for tile in [
        Tile::Vertical,
        Tile::Horizontal,
        Tile::BendNE,
        Tile::BendNW,
        Tile::BendSW,
        Tile::BendSE,
        Tile::Ground,
        Tile::Start,
    ] {
        assert_eq!(Tile::from_byte(tile.symbol()), tile);
    }
    assert_eq!(Tile::Ground.symbol(), b'.');
    assert_eq!(Tile::Start.symbol(), b'S');
    assert_eq!(Tile::BendSW.symbol(), b'7');
}

#[test]
fn the_transition_table_has_twelve_entries() {
    let table = [
        (Tile::Vertical, South, North),
        (Tile::Vertical, North, South),
        (Tile::Horizontal, West, East),
        (Tile::Horizontal, East, West),
        (Tile::BendNE, North, East),
        (Tile::BendNE, East, North),
        (Tile::BendNW, North, West),
        (Tile::BendNW, West, North),
        (Tile::BendSW, South, West),
        (Tile::BendSW, West, South),
        (Tile::BendSE, East, South),
        (Tile::BendSE, South, East),
    ];
    for (tile, arrival, out) in table {
        assert!(tile.is_open(arrival));
        assert_eq!(tile.way_out(arrival), out);
    }
    assert_eq!(North.reverse(), South);
    assert_eq!(South.reverse(), North);
    assert_eq!(East.reverse(), West);
    assert_eq!(West.reverse(), East);
}

#[test]
fn connections_lists_north_east_south_west() {
    assert_eq!(github::connections(Tile::Vertical), [true, false, true, false]);
    assert_eq!(github::connections(Tile::Horizontal), [false, true, false, true]);
    assert_eq!(github::connections(Tile::BendNE), [true, true, false, false]);
    assert_eq!(github::connections(Tile::BendNW), [true, false, false, true]);
    assert_eq!(github::connections(Tile::BendSW), [false, false, true, true]);
    assert_eq!(github::connections(Tile::BendSE), [false, true, true, false]);
    assert_eq!(github::connections(Tile::Ground), [false, false, false, false]);
    assert_eq!(github::connections(Tile::Start), [false, false, false, false]);
}

#[test]
fn locations_step_within_their_bounds() {
    let loc = at(3, 4);
    assert_eq!(loc.north(), Some(at(3, 3)));
    assert_eq!(loc.south(5), Some(at(3, 5)));
    assert_eq!(loc.south(4), None);
    assert_eq!(loc.east(4), Some(at(4, 4)));
    assert_eq!(loc.east(3), None);
    assert_eq!(loc.west(), Some(at(2, 4)));
    assert_eq!(at(0, 0).north(), None);
    assert_eq!(at(0, 0).west(), None);
    assert_eq!(at(usize::MAX, usize::MAX).south(usize::MAX), None);
    assert_eq!(at(usize::MAX, usize::MAX).east(usize::MAX), None);
}

#[test]
fn neighbor_stops_at_the_border() {
    let map = parse(&text(&SQUARE)).unwrap();
    assert_eq!(map.neighbor(at(0, 0), Direction::North), None);
    assert_eq!(map.neighbor(at(0, 0), Direction::West), None);
    assert_eq!(map.neighbor(at(0, 0), Direction::South), Some(at(0, 1)));
    assert_eq!(map.neighbor(at(0, 0), Direction::East), Some(at(1, 0)));
    assert_eq!(map.neighbor(at(4, 4), Direction::South), None);
    assert_eq!(map.neighbor(at(4, 4), Direction::East), None);
    assert_eq!(map.neighbor(at(4, 4), Direction::North), Some(at(4, 3)));
    assert_eq!(map.neighbor(at(4, 4), Direction::West), Some(at(3, 4)));
    assert_eq!(map.neighbor(at(5, 2), Direction::West), Some(at(4, 2)));
    assert_eq!(map.neighbor(at(5, 2), Direction::North), None);
    assert_eq!(map.neighbor(at(9, 9), Direction::North), None);
}

#[test]
fn grid_is_built_from_rows_that_form_a_maze() {
    let rows = vec![
        vec![Tile::Start, Tile::BendSW],
        vec![Tile::BendNE, Tile::BendNW],
    ];
    let map = Grid::new(at(0, 0), rows.clone()).unwrap();
    assert_eq!(map.starting_pos(), at(0, 0));
    assert_eq!(map.width(), 2);
    assert_eq!(map.height(), 2);
    assert_eq!(map.get(at(1, 1)), Tile::BendNW);
    assert_eq!(
        map.find_loop(),
        Some(vec![at(0, 0), at(0, 1), at(1, 1), at(1, 0), at(0, 0)])
    );
    assert_eq!(Grid::new(at(1, 0), rows.clone()).err(), Some(MazeError::NoStart));
    assert_eq!(Grid::new(at(0, 2), rows.clone()).err(), Some(MazeError::NoStart));
    assert_eq!(Grid::new(at(2, 0), rows).err(), Some(MazeError::NoStart));
    assert_eq!(Grid::new(at(0, 0), vec![]).err(), Some(MazeError::NoStart));
    assert_eq!(
        Grid::new(at(0, 0), vec![vec![Tile::Start], vec![]]).err(),
        Some(MazeError::RaggedRows)
    );
    assert_eq!(
        Grid::new(at(0, 0), vec![vec![Tile::Start, Tile::Start]]).err(),
        Some(MazeError::MultipleStarts)
    );
    assert_eq!(
        Grid::new(at(0, 0), vec![vec![Tile::Start], vec![Tile::Start, Tile::Ground]]).err(),
        Some(MazeError::RaggedRows)
    );
}

#[test]
fn the_loop_is_walked_from_the_first_neighbor_that_closes() {
    let map = parse(&text(&SQUARE)).unwrap();
    assert_eq!(
        map.find_loop(),
        Some(vec![
            at(1, 1),
            at(1, 2),
            at(1, 3),
            at(2, 3),
            at(3, 3),
            at(3, 2),
            at(3, 1),
            at(2, 1),
            at(1, 1),
        ])
    );
}

#[test]
fn the_start_tile_is_no_connected_neighbor() {
    let below = parse("S\n|").unwrap();
    assert_eq!(below.connected_to(&at(0, 1)), vec![]);
    assert_eq!(below.connected_to(&at(0, 0)), vec![(at(0, 1), Direction::North)]);
    let map = parse(&text(&["-S-", "F-7", "L-J"])).unwrap();
    assert_eq!(map.connected_to(&at(0, 0)), vec![]);
    assert_eq!(map.connected_to(&at(2, 0)), vec![]);
    assert_eq!(
        map.connected_to(&at(1, 1)),
        vec![(at(0, 1), Direction::East), (at(2, 1), Direction::West)]
    );
    assert_eq!(
        map.connected_to(&at(1, 0)),
        vec![(at(0, 0), Direction::East), (at(2, 0), Direction::West)]
    );
    let square = parse(&text(&SQUARE)).unwrap();
    assert_eq!(square.connected_to(&at(1, 2)), vec![(at(1, 3), Direction::North)]);
    assert_eq!(square.connected_to(&at(2, 1)), vec![(at(3, 1), Direction::West)]);
    assert_eq!(
        square.next_tile(&at(2, 1), Direction::East),
        Some((at(1, 1), Direction::East))
    );
}

#[test]
fn a_dead_end_next_to_the_start_is_passed_over() {
    let input = text(&[".|...", ".S-7.", ".|.|.", ".L-J."]);
    let map = parse(&input).unwrap();
    assert_eq!(
        map.connected_to(&at(1, 1)),
        vec![
            (at(1, 0), Direction::South),
            (at(1, 2), Direction::North),
            (at(2, 1), Direction::West),
        ]
    );
    assert_eq!(map.next_tile(&at(1, 0), Direction::South), None);
    assert_eq!(map.find_loop().unwrap()[1], at(1, 2));
    assert_eq!(p1(&input), Ok(4));
    assert_eq!(p2(&input), Ok(1));
    assert_eq!(github::p1(&input), Ok(4));
    assert_eq!(github::p2(&input), Ok(1));
}

#[test]
fn a_walk_that_runs_into_a_wall_or_the_border_finds_no_loop() {
    assert_eq!(p1("S-"), Ok(0));
    assert_eq!(p2("S-"), Ok(0));
    assert_eq!(p1("S-|"), Ok(0));
    assert_eq!(p1("S-7\n|.|\nL-."), Ok(0));
    assert_eq!(p2("S-7\n|.|\nL-."), Ok(0));
    assert_eq!(github::p1("S-7\n|.|\nL-."), Ok(0));
    assert_eq!(github::p2("S-7\n|.|\nL-."), Ok(0));
    let map = parse("S-|").unwrap();
    assert_eq!(map.next_tile(&at(1, 0), Direction::West), None);
}

#[test]
fn the_start_may_stand_at_the_border_and_open_to_the_north() {
    let corner = text(&["S-7", "|.|", "L-J"]);
    assert_eq!(p1(&corner), Ok(4));
    assert_eq!(p2(&corner), Ok(1));
    assert_eq!(github::p1(&corner), Ok(4));
    assert_eq!(github::p2(&corner), Ok(1));
    let bottom = text(&["F--7", "|..|", "|..|", "S--J"]);
    assert_eq!(p1(&bottom), Ok(6));
    assert_eq!(p2(&bottom), Ok(4));
    assert_eq!(github::p1(&bottom), Ok(6));
    assert_eq!(github::p2(&bottom), Ok(4));
    let side = text(&["F--7", "S..|", "|..|", "L--J"]);
    assert_eq!(p1(&side), Ok(6));
    assert_eq!(p2(&side), Ok(4));
    assert_eq!(github::p1(&side), Ok(6));
    assert_eq!(github::p2(&side), Ok(4));
    let right = text(&["F--7", "|..S", "|..|", "L--J"]);
    assert_eq!(p2(&right), Ok(4));
    assert_eq!(github::p2(&right), Ok(4));
}

#[test]
fn pipes_off_the_loop_count_as_cells() {
    let input = text(&["F----7", "|F7-J|", "|LJ|.|", "S----J"]);
    assert_eq!(p1(&input), Ok(8));
    assert_eq!(p2(&input), Ok(8));
    assert_eq!(github::p1(&input), Ok(8));
    assert_eq!(github::p2(&input), Ok(8));
}

#[test]
fn traced_paths_are_closed_and_move_one_step_at_a_time() {
    for rows in [&SQUARE[..], &NESTED[..], &WINDING[..], &SAMPLE[..]] {
        let map = parse(&text(rows)).unwrap();
        let path = map.find_loop().unwrap();
        assert_eq!(path[0], map.starting_pos());
        assert_eq!(path[path.len() - 1], map.starting_pos());
        for pair in path.windows(2) {
            let dx = pair[0].x.abs_diff(pair[1].x);
            let dy = pair[0].y.abs_diff(pair[1].y);
            assert_eq!(dx + dy, 1);
        }
        assert_eq!((path.len() - 1) % 2, 0);
        let mut cells: Vec<(usize, usize)> = path[1..].iter().map(|l| (l.y, l.x)).collect();
        cells.sort();
        cells.dedup();
        assert_eq!(cells.len(), path.len() - 1);
    }
}

fn ring(x0: usize, y0: usize, w: usize, h: usize) -> Vec<Location> {
    let mut path = vec![];
    for x in x0..x0 + w {
        path.push(at(x, y0));
    }
    for y in y0..y0 + h {
        path.push(at(x0 + w, y));
    }
    for x in (x0 + 1..=x0 + w).rev() {
        path.push(at(x, y0 + h));
    }
    for y in (y0 + 1..=y0 + h).rev() {
        path.push(at(x0, y));
    }
    path.push(at(x0, y0));
    path
}

#[test]
fn a_rectangle_encloses_the_cells_between_its_sides() {
    for (w, h) in [(1, 1), (2, 2), (3, 2), (2, 5), (10, 7)] {
        let expected = (w - 1) * (h - 1);
        assert_eq!(shoelace_with_picks_theorem(ring(0, 0, w, h)), Some(expected));
        assert_eq!(shoelace_with_picks_theorem(ring(7, 3, w, h)), Some(expected));
        let mut back = ring(2, 9, w, h);
        back.reverse();
        assert_eq!(shoelace_with_picks_theorem(back), Some(expected));
    }
}

#[test]
fn the_area_formula_is_taken_as_it_stands() {
    assert_eq!(shoelace_with_picks_theorem(vec![at(5, 5)]), Some(1));
    assert_eq!(shoelace_with_picks_theorem(vec![at(0, 0), at(1, 0), at(0, 0)]), Some(0));
    assert_eq!(shoelace_with_picks_theorem(vec![at(0, 0), at(0, 1), at(0, 0)]), Some(0));
    assert_eq!(
        shoelace_with_picks_theorem(vec![at(0, 0), at(1, 0), at(2, 0), at(1, 0), at(0, 0)]),
        None
    );
}

#[test]
fn the_area_does_not_depend_on_where_the_loop_lies() {
    let far = usize::MAX - 10;
    assert_eq!(shoelace_with_picks_theorem(ring(far, far, 4, 3)), Some(6));
    assert_eq!(shoelace_with_picks_theorem(ring(0, far, 3, 4)), Some(6));
}

#[test]
fn every_traced_loop_has_a_count_that_is_not_negative() {
    for rows in [&SQUARE[..], &NESTED[..], &WINDING[..], &SAMPLE[..]] {
        let map = parse(&text(rows)).unwrap();
        let path = map.find_loop().unwrap();
        assert!(shoelace_with_picks_theorem(path).is_some());
    }
}
