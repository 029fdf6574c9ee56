//! What holds of every walk through a well-formed maze. A step can be taken
//! back and walked the other way, so a walk that leaves the start tile is
//! never twice in the same place, never twice in the same cell, and ends
//! after fewer steps than the maze has places. Where it comes back to the
//! start tile, its locations form a closed path.

use vstd::prelude::*;
use crate::area::{edges, lemma_closed_path_even};
use crate::location::{closed_path, step_at, unit_step, unit_steps, Location};
use crate::maze::{rectangular, shifted, start_at, Maze};
use crate::tile::{lemma_exit_is_other_side, Direction, Tile};

verus! {

impl Maze {
    /// Whether `first` is where a walk can begin: a pipe next to the start
    /// tile, entered through the side that faces the start tile.
    pub open spec fn leaves_start(self, first: (Location, Direction)) -> bool {
        self.on_pipe(first) && shifted(first.0, first.1) == Some(self.start)
    }

    /// The same pipe walked the other way: entered through the side that
    /// `at` leaves by.
    pub open spec fn reversed(self, at: (Location, Direction)) -> (Location, Direction) {
        (at.0, self.tile(at.0).exit(at.1))
    }

    /// The number of places a walk can stand in: every cell, times the four
    /// sides it can be entered through.
    pub open spec fn places(self) -> int {
        4 * (self.width() as int * self.height() as int)
    }

    /// A number for each place, different for different places of the maze.
    pub open spec fn place_number(self, at: (Location, Direction)) -> int {
        4 * (at.0.y as int * self.width() as int + at.0.x as int) + match at.1 {
            Direction::North => 0int,
            Direction::South => 1int,
            Direction::East => 2int,
            Direction::West => 3int,
        }
    }
}

proof fn lemma_cell_number(w: int, h: int, x: int, y: int)
    by (nonlinear_arith)
    requires
        0 <= x < w,
        0 <= y < h,
    ensures
        0 <= y * w + x < w * h,
{
}

proof fn lemma_cell_number_injective(w: int, x1: int, y1: int, x2: int, y2: int)
    by (nonlinear_arith)
    requires
        0 <= x1 < w,
        0 <= x2 < w,
        0 <= y1,
        0 <= y2,
        y1 * w + x1 == y2 * w + x2,
    ensures
        x1 == x2,
        y1 == y2,
{
}

/// In a well-formed maze every cell lies in its row, and only the start
/// cell holds the start tile.
pub proof fn lemma_cells(m: Maze, loc: Location)
    requires
        m.wf(),
        m.contains(loc),
    ensures
        loc.x < m.tiles[loc.y as int].len(),
        m.tile(loc) == Tile::Start <==> loc == m.start,
{
    assert(rectangular(m.tiles));
    assert(m.tiles[loc.y as int].len() == m.tiles[0].len());
    if m.tile(loc) == Tile::Start {
        assert(start_at(m.tiles, loc));
    }
}

/// Every connected neighbor of the start tile is a place where a walk can
/// begin.
pub proof fn lemma_connected_leave_start(m: Maze, i: int)
    requires
        m.wf(),
        0 <= i < m.connected(m.start).len(),
    ensures
        m.leaves_start(m.connected(m.start)[i]),
{
    let s = m.start;
    let n = m.entry(s, Direction::North);
    let so = m.entry(s, Direction::South);
    let w = m.entry(s, Direction::West);
    let e = m.entry(s, Direction::East);
    let first = m.connected(s)[i];
    assert(m.connected(s) == n + so + w + e);
    let dir = if i < n.len() {
        Direction::North
    } else if i < n.len() + so.len() {
        Direction::South
    } else if i < n.len() + so.len() + w.len() {
        Direction::West
    } else {
        Direction::East
    };
    assert(m.entry(s, dir).len() == 1 && first == m.entry(s, dir)[0]);
    let at = m.neighbor(s, dir).unwrap();
    assert(first == (at, dir.opposite()));
    lemma_cells(m, at);
    assert(at != s);
}

/// A step leads to a neighboring cell of the maze, and the way back is
/// known: it goes through the side that the walk entered by. The step ends
/// on a pipe or on the start tile, and from the start tile there is no step.
pub proof fn lemma_step_back(m: Maze, a: (Location, Direction), b: (Location, Direction))
    requires
        m.wf(),
        m.step(a) == Some(b),
    ensures
        m.on_pipe(a),
        m.contains(b.0),
        shifted(b.0, b.1) == Some(a.0),
        unit_step(a.0, b.0),
        b.1 == m.tile(a.0).exit(a.1).opposite(),
        b.0 == m.start || m.on_pipe(b),
        b.0 == m.start ==> m.step(b) is None,
{
    lemma_cells(m, b.0);
    lemma_cells(m, m.start);
}

/// Two places from which one step leads to the same place are the same.
pub proof fn lemma_step_injective(
    m: Maze,
    a1: (Location, Direction),
    a2: (Location, Direction),
    b: (Location, Direction),
)
    requires
        m.wf(),
        m.step(a1) == Some(b),
        m.step(a2) == Some(b),
    ensures
        a1 == a2,
{
    lemma_step_back(m, a1, b);
    lemma_step_back(m, a2, b);
    lemma_exit_is_other_side(m.tile(a1.0), a1.1);
    lemma_exit_is_other_side(m.tile(a2.0), a2.1);
}

/// A step can be walked the other way: where a step leads from one pipe to
/// another, the step from the second pipe reversed leads to the first pipe
/// reversed.
pub proof fn lemma_step_reversed(m: Maze, a: (Location, Direction), b: (Location, Direction))
    requires
        m.wf(),
        m.step(a) == Some(b),
        m.on_pipe(b),
    ensures
        m.step(m.reversed(b)) == Some(m.reversed(a)),
{
    lemma_step_back(m, a, b);
    lemma_exit_is_other_side(m.tile(a.0), a.1);
    lemma_exit_is_other_side(m.tile(b.0), b.1);
    lemma_cells(m, a.0);
}

/// A walk that got as far as `n` steps got as far as every `i` before, and
/// stood on a pipe of the maze each time before the last.
pub proof fn lemma_trace_prefix(m: Maze, first: (Location, Direction), n: nat, i: nat)
    requires
        m.wf(),
        m.leaves_start(first),
        m.trace(first, n) is Some,
        i <= n,
    ensures
        m.trace(first, i) is Some,
        m.contains(m.trace(first, i).unwrap().0),
        i < n ==> m.on_pipe(m.trace(first, i).unwrap()),
        i < n ==> m.trace(first, i).unwrap().0 != m.start,
    decreases n,
{
    if n == 0 {
    } else {
        let before = m.trace(first, (n - 1) as nat).unwrap();
        lemma_step_back(m, before, m.trace(first, n).unwrap());
        lemma_cells(m, before.0);
        if i < n {
            lemma_trace_prefix(m, first, (n - 1) as nat, i);
        }
    }
}

/// Once a walk has ended it stays ended.
pub proof fn lemma_trace_ended(m: Maze, first: (Location, Direction), n: nat, later: nat)
    requires
        m.trace(first, n) is None,
        n <= later,
    ensures
        m.trace(first, later) is None,
    decreases later,
{
    if n < later {
        lemma_trace_ended(m, first, n, (later - 1) as nat);
    }
}

/// A walk that began next to the start tile is never twice in the same
/// place.
pub proof fn lemma_trace_distinct(m: Maze, first: (Location, Direction), i: nat, j: nat)
    requires
        m.wf(),
        m.leaves_start(first),
        i < j,
        m.trace(first, j) is Some,
    ensures
        m.trace(first, i) is Some,
        m.trace(first, i) != m.trace(first, j),
    decreases i,
{
    lemma_trace_prefix(m, first, j, i);
    lemma_trace_prefix(m, first, j, (j - 1) as nat);
    let before_j = m.trace(first, (j - 1) as nat).unwrap();
    if m.trace(first, i) == m.trace(first, j) {
        if i == 0 {
            lemma_step_back(m, before_j, first);
            assert(before_j.0 == m.start);
        } else {
            lemma_trace_prefix(m, first, j, (i - 1) as nat);
            let before_i = m.trace(first, (i - 1) as nat).unwrap();
            lemma_step_injective(m, before_i, before_j, m.trace(first, j).unwrap());
            lemma_trace_distinct(m, first, (i - 1) as nat, (j - 1) as nat);
        }
    }
}

/// A walk that began next to the start tile never comes twice to the same
/// cell. If it did, it would pass the cell the second time the other way
/// round, and half way between the two times it would have turned round on
/// the spot.
pub proof fn lemma_cells_distinct(m: Maze, first: (Location, Direction), i: nat, j: nat)
    requires
        m.wf(),
        m.leaves_start(first),
        i < j,
        m.trace(first, j) is Some,
    ensures
        m.trace(first, i) is Some,
        m.trace(first, i).unwrap().0 != m.trace(first, j).unwrap().0,
    decreases j - i,
{
    lemma_trace_prefix(m, first, j, i);
    lemma_trace_distinct(m, first, i, j);
    let a = m.trace(first, i).unwrap();
    let b = m.trace(first, j).unwrap();
    if a.0 == b.0 {
        lemma_exit_is_other_side(m.tile(a.0), a.1);
        assert(b == m.reversed(a));
        lemma_trace_prefix(m, first, j, i + 1);
        lemma_trace_prefix(m, first, j, (j - 1) as nat);
        let after_a = m.trace(first, i + 1).unwrap();
        let before_b = m.trace(first, (j - 1) as nat).unwrap();
        lemma_step_back(m, a, after_a);
        if i + 1 < j {
            lemma_step_reversed(m, a, after_a);
            lemma_exit_is_other_side(m.tile(after_a.0), after_a.1);
            lemma_step_injective(m, before_b, m.reversed(after_a), b);
            if i + 1 < j - 1 {
                lemma_cells_distinct(m, first, i + 1, (j - 1) as nat);
            }
        }
    }
}

/// A walk that began next to the start tile takes fewer steps than the maze
/// has places: every walk ends.
pub proof fn lemma_trace_bounded(m: Maze, first: (Location, Direction), n: nat)
    requires
        m.wf(),
        m.leaves_start(first),
        m.trace(first, n) is Some,
    ensures
        n + 1 <= m.places(),
{
    let w = m.width() as int;
    let h = m.height() as int;
    let numbers = Seq::new(n + 1, |i: int| m.place_number(m.trace(first, i as nat).unwrap()));
    assert forall|i: int| 0 <= i <= n implies 0 <= #[trigger] numbers[i] < m.places() by {
        lemma_trace_prefix(m, first, n, i as nat);
        let at = m.trace(first, i as nat).unwrap();
        lemma_cell_number(w, h, at.0.x as int, at.0.y as int);
    }
    assert forall|i: int, j: int| 0 <= i < numbers.len() && 0 <= j < numbers.len() && i
        != j implies numbers[i] != numbers[j] by {
        lemma_trace_prefix(m, first, n, i as nat);
        lemma_trace_prefix(m, first, n, j as nat);
        let a = m.trace(first, i as nat).unwrap();
        let b = m.trace(first, j as nat).unwrap();
        if i < j {
            lemma_trace_distinct(m, first, i as nat, j as nat);
        } else {
            lemma_trace_distinct(m, first, j as nat, i as nat);
        }
        if numbers[i] == numbers[j] {
            lemma_cell_number_injective(
                w,
                a.0.x as int,
                a.0.y as int,
                b.0.x as int,
                b.0.y as int,
            );
        }
    }
    numbers.unique_seq_to_set();
    let all = vstd::set_lib::set_int_range(0, m.places());
    lemma_cell_number(w, h, 0, 0);
    vstd::set_lib::lemma_int_range(0, m.places());
    assert(numbers.to_set().subset_of(all)) by {
        assert forall|v: int| numbers.to_set().contains(v) implies all.contains(v) by {
            let i = choose|i: int| 0 <= i < numbers.len() && numbers[i] == v;
            assert(0 <= numbers[i] < m.places());
        }
    }
    vstd::set_lib::lemma_len_subset(numbers.to_set(), all);
}

/// A walk comes back to the start tile at most once: it ends there.
pub proof fn lemma_closing_unique(m: Maze, first: (Location, Direction), n1: nat, n2: nat)
    requires
        m.wf(),
        m.closes_after(first, n1),
        m.closes_after(first, n2),
    ensures
        n1 == n2,
{
    lemma_cells(m, m.start);
    if n1 < n2 {
        assert(m.trace(first, n1 + 1) is None);
        lemma_trace_ended(m, first, n1 + 1, n2);
    } else if n2 < n1 {
        assert(m.trace(first, n2 + 1) is None);
        lemma_trace_ended(m, first, n2 + 1, n1);
    }
}

/// The locations of a walk, with the start tile before them, are each one
/// step from the one before; where the walk is back on the start tile after
/// `n` steps, they form a closed path.
pub proof fn lemma_walked_is_path(m: Maze, first: (Location, Direction), n: nat)
    requires
        m.wf(),
        m.leaves_start(first),
        m.trace(first, n) is Some,
    ensures
        m.walked(first, n).len() == n + 2,
        m.walked(first, n)[0] == m.start,
        unit_steps(m.walked(first, n)),
        m.closes_after(first, n) ==> closed_path(m.walked(first, n)),
{
    let p = m.walked(first, n);
    assert forall|i: int| 0 <= i < n + 1 implies #[trigger] step_at(p, i) by {
        if i == 0 {
            assert(p[1] == first.0);
        } else {
            lemma_trace_prefix(m, first, n, i as nat);
            lemma_trace_prefix(m, first, n, (i - 1) as nat);
            assert(p[i] == m.trace(first, (i - 1) as nat).unwrap().0);
            assert(p[i + 1] == m.trace(first, i as nat).unwrap().0);
            lemma_step_back(
                m,
                m.trace(first, (i - 1) as nat).unwrap(),
                m.trace(first, i as nat).unwrap(),
            );
        }
    }
}

/// One more step of a walk: the walk is one step further, its locations are
/// those before and the new one, and it stands on a pipe again unless it is
/// back on the start tile.
pub proof fn lemma_walk_on(
    m: Maze,
    first: (Location, Direction),
    n: nat,
    at: (Location, Direction),
    next: (Location, Direction),
)
    requires
        m.wf(),
        m.leaves_start(first),
        m.trace(first, n) == Some(at),
        m.step(at) == Some(next),
    ensures
        m.trace(first, n + 1) == Some(next),
        m.walked(first, n + 1) == m.walked(first, n).push(next.0),
        next.0 == m.start || m.on_pipe(next),
        n + 2 <= m.places(),
{
    assert(m.trace(first, n + 1) == Some(next));
    lemma_step_back(m, at, next);
    lemma_trace_bounded(m, first, n + 1);
    assert(m.walked(first, n + 1) =~= m.walked(first, n).push(next.0));
}

/// A walk that is back on the start tile after `n` steps closes, and its
/// locations up to there are the loop from `first`, a closed path.
pub proof fn lemma_walk_closed(m: Maze, first: (Location, Direction), n: nat)
    requires
        m.wf(),
        m.leaves_start(first),
        m.closes_after(first, n),
    ensures
        m.closes(first),
        m.loop_from(first) == m.walked(first, n),
        closed_path(m.walked(first, n)),
        m.walked(first, n)[0] == m.start,
{
    lemma_closing_unique(m, first, n, m.closing_steps(first));
    lemma_walked_is_path(m, first, n);
}

/// A walk that has no next step from a pipe never comes back to the start
/// tile.
pub proof fn lemma_walk_stuck(
    m: Maze,
    first: (Location, Direction),
    n: nat,
    at: (Location, Direction),
)
    requires
        m.wf(),
        m.leaves_start(first),
        m.trace(first, n) == Some(at),
        m.on_pipe(at),
        m.step(at) is None,
    ensures
        !m.closes(first),
{
    lemma_cells(m, at.0);
    assert(m.trace(first, n + 1) is None);
    assert forall|k: nat| !m.closes_after(first, k) by {
        if k <= n {
            lemma_trace_prefix(m, first, n, k);
        } else {
            lemma_trace_ended(m, first, n + 1, k);
        }
    }
}

/// The first closing entry of a sequence is one of its entries, and the walk
/// from it closes.
pub proof fn lemma_first_closing(m: Maze, firsts: Seq<(Location, Direction)>)
    requires
        m.first_closing(firsts) is Some,
    ensures
        m.closes(m.first_closing(firsts).unwrap()),
        exists|i: int| 0 <= i < firsts.len() && firsts[i] == m.first_closing(firsts).unwrap(),
    decreases firsts.len(),
{
    if firsts.len() == 0 {
    } else if m.closes(firsts[0]) {
        assert(firsts[0] == m.first_closing(firsts).unwrap());
    } else {
        lemma_first_closing(m, firsts.skip(1));
        let i = choose|i: int|
            0 <= i < firsts.skip(1).len() && firsts.skip(1)[i] == m.first_closing(
                firsts.skip(1),
            ).unwrap();
        assert(firsts[i + 1] == m.first_closing(firsts).unwrap());
    }
}

/// What is known of the first closing entry when the entries before
/// position `i` do not close.
pub proof fn lemma_first_closing_skip(m: Maze, firsts: Seq<(Location, Direction)>, i: int)
    requires
        0 <= i < firsts.len(),
        m.first_closing(firsts) == m.first_closing(firsts.skip(i)),
    ensures
        m.closes(firsts[i]) ==> m.first_closing(firsts) == Some(firsts[i]),
        !m.closes(firsts[i]) ==> m.first_closing(firsts) == m.first_closing(firsts.skip(i + 1)),
{
    assert(firsts.skip(i)[0] == firsts[i]);
    assert(firsts.skip(i).skip(1) =~= firsts.skip(i + 1));
}

/// The place next to the start tile from which the loop of the maze is
/// walked, and the number of steps after which that walk is back.
pub proof fn lemma_loop_walk(m: Maze) -> (walk: ((Location, Direction), nat))
    requires
        m.wf(),
        m.traced_loop() is Some,
    ensures
        m.leaves_start(walk.0),
        m.closes_after(walk.0, walk.1),
        m.traced_loop() == Some(m.walked(walk.0, walk.1)),
{
    let firsts = m.connected(m.start);
    lemma_first_closing(m, firsts);
    let first = m.first_closing(firsts).unwrap();
    let i = choose|i: int| 0 <= i < firsts.len() && firsts[i] == first;
    lemma_connected_leave_start(m, i);
    let n = m.closing_steps(first);
    assert(m.closes_after(first, n));
    (first, n)
}

/// The loop of a well-formed maze is a closed path: it begins and ends on the
/// start tile, and each of its locations is one step from the one before.
pub proof fn lemma_loop_is_closed_path(m: Maze)
    requires
        m.wf(),
        m.traced_loop() is Some,
    ensures
        closed_path(m.traced_loop().unwrap()),
        m.traced_loop().unwrap()[0] == m.start,
{
    let (first, n) = lemma_loop_walk(m);
    lemma_walked_is_path(m, first, n);
}

/// The loop of a well-formed maze has an even number of steps, at least
/// four.
pub proof fn lemma_loop_length_even(m: Maze)
    requires
        m.wf(),
        m.traced_loop() is Some,
    ensures
        edges(m.traced_loop().unwrap()) % 2 == 0,
        edges(m.traced_loop().unwrap()) >= 4,
{
    let (first, n) = lemma_loop_walk(m);
    let p = m.traced_loop().unwrap();
    lemma_walked_is_path(m, first, n);
    lemma_closed_path_even(p);
    lemma_trace_prefix(m, first, n, 0);
    assert(p[1] == first.0);
    if n == 1 {
        lemma_step_back(m, first, m.trace(first, 1).unwrap());
        lemma_exit_is_other_side(m.tile(first.0), first.1);
    }
}

/// The loop of a well-formed maze passes through no cell twice: but for the
/// start tile at its end, its locations are all different.
pub proof fn lemma_loop_is_simple(m: Maze)
    requires
        m.wf(),
        m.traced_loop() is Some,
    ensures
        m.traced_loop().unwrap().drop_last().no_duplicates(),
{
    let (first, n) = lemma_loop_walk(m);
    let p = m.traced_loop().unwrap().drop_last();
    assert forall|i: int, j: int| 0 <= i < p.len() && 0 <= j < p.len() && i != j implies p[i]
        != p[j] by {
        let lo = if i < j {
            i
        } else {
            j
        };
        let hi = if i < j {
            j
        } else {
            i
        };
        lemma_trace_prefix(m, first, n, (hi - 1) as nat);
        if lo == 0 {
            assert(p[lo] == m.start);
        } else {
            lemma_cells_distinct(m, first, (lo - 1) as nat, (hi - 1) as nat);
        }
    }
}

} // verus!
