//! The number of cells that a closed path encloses, from the shoelace
//! formula for its area and Pick's theorem.

use vstd::prelude::*;
use vstd::math::abs;
use crate::location::{closed_path, step_at, unit_steps, Location};

verus! {

/// The shoelace sum of a path: over each pair of consecutive locations
/// `a`, `b`, the sum of `(a.y + b.y) * (a.x - b.x)`. For a closed path it is
/// twice the signed area of the polygon that the path draws.
pub open spec fn shoelace_sum(p: Seq<Location>) -> int
    decreases p.len(),
{
    if p.len() < 2 {
        0
    } else {
        let a = p[p.len() - 2];
        let b = p[p.len() - 1];
        shoelace_sum(p.drop_last()) + (a.y + b.y) * (a.x - b.x)
    }
}

/// The number of edges of a path.
pub open spec fn edges(p: Seq<Location>) -> int {
    p.len() - 1
}

/// The number of cells strictly inside a closed path, by Pick's theorem:
/// the area, less half the number of cells on the path, plus one.
pub open spec fn enclosed(p: Seq<Location>) -> int {
    abs(shoelace_sum(p)) / 2 - edges(p) / 2 + 1
}

/// The sum of the rows of the steps of `p` that go west, and of those that
/// go east.
pub open spec fn row_sums(p: Seq<Location>) -> (int, int)
    decreases p.len(),
{
    if p.len() < 2 {
        (0, 0)
    } else {
        let a = p[p.len() - 2];
        let b = p[p.len() - 1];
        let before = row_sums(p.drop_last());
        if b.x < a.x {
            (before.0 + a.y, before.1)
        } else if a.x < b.x {
            (before.0, before.1 + a.y)
        } else {
            before
        }
    }
}

proof fn lemma_step_term(ax: int, ay: int, bx: int, by: int)
    by (nonlinear_arith)
    requires
        (ax == bx) || (ay == by && (ax + 1 == bx || bx + 1 == ax)),
    ensures
        ax == bx ==> (ay + by) * (ax - bx) == 0,
        ax + 1 == bx ==> (ay + by) * (ax - bx) == -2 * ay,
        bx + 1 == ax ==> (ay + by) * (ax - bx) == 2 * ay,
{
}

proof fn lemma_one_more_row(len: int, max: int, sum: int, row: int)
    by (nonlinear_arith)
    requires
        0 <= sum <= (len - 1) * max,
        0 <= row <= max,
        1 <= len,
    ensures
        sum + row <= len * max,
        sum <= len * max,
{
}

proof fn lemma_product_bound(a: int, b: int, m: int)
    by (nonlinear_arith)
    requires
        0 <= a <= m,
        0 <= b <= m,
    ensures
        0 <= a * b <= m * m,
{
}

/// On a path of unit steps only the steps west and east count towards the
/// shoelace sum, each with twice its row.
pub proof fn lemma_shoelace_by_rows(p: Seq<Location>)
    requires
        unit_steps(p),
    ensures
        shoelace_sum(p) == 2 * (row_sums(p).0 - row_sums(p).1),
        0 <= row_sums(p).0 <= p.len() * usize::MAX,
        0 <= row_sums(p).1 <= p.len() * usize::MAX,
        p.len() < 2 ==> row_sums(p) == (0int, 0int),
    decreases p.len(),
{
    if p.len() >= 2 {
        let a = p[p.len() - 2];
        let b = p[p.len() - 1];
        let q = p.drop_last();
        assert forall|i: int| 0 <= i < q.len() - 1 implies #[trigger] step_at(q, i) by {
            assert(step_at(p, i));
        }
        lemma_shoelace_by_rows(q);
        assert(step_at(p, p.len() - 2));
        lemma_step_term(a.x as int, a.y as int, b.x as int, b.y as int);
        lemma_one_more_row(p.len() as int, usize::MAX as int, row_sums(q).0, a.y as int);
        lemma_one_more_row(p.len() as int, usize::MAX as int, row_sums(q).1, a.y as int);
    } else {
        lemma_product_bound(p.len() as int, usize::MAX as int, usize::MAX as int);
    }
}

/// The shoelace sum of a path of unit steps is even, so halving it loses
/// nothing.
pub proof fn lemma_shoelace_sum_even(p: Seq<Location>)
    requires
        unit_steps(p),
    ensures
        shoelace_sum(p) % 2 == 0,
{
    lemma_shoelace_by_rows(p);
}

/// Along a path of unit steps the sum of column and row changes between odd
/// and even with every step.
proof fn lemma_step_parity(p: Seq<Location>, i: int)
    requires
        unit_steps(p),
        0 <= i < p.len(),
    ensures
        (p[i].x + p[i].y) % 2 == (p[0].x + p[0].y + i) % 2,
    decreases i,
{
    if i > 0 {
        lemma_step_parity(p, i - 1);
        assert(step_at(p, i - 1));
    }
}

/// A closed path has an even number of edges: half of them is the distance
/// to the point of the loop that is farthest from its start.
pub proof fn lemma_closed_path_even(p: Seq<Location>)
    requires
        closed_path(p),
    ensures
        edges(p) % 2 == 0,
        p.len() / 2 == edges(p) / 2,
{
    lemma_step_parity(p, p.len() - 1);
}

/// Computes the number of cells that the closed path encloses. The path
/// names its first location again at its end, and each of its locations is
/// one step from the one before it. `None` where the formula gives a number
/// below zero, as it does for a path that runs back over itself, or one
/// beyond `usize`.
///
/// Only steps west and east count towards the shoelace sum. Their rows are
/// summed apart in 128 bits, so that no sum is ever taken below zero or
/// beyond its type, and the difference of the two sums is half the shoelace
/// sum.
pub fn shoelace_with_picks_theorem(path: Vec<Location>) -> (r: Option<usize>)
    requires
        closed_path(path@),
    ensures
        r == (if 0 <= enclosed(path@) <= usize::MAX {
            Some(enclosed(path@) as usize)
        } else {
            None
        }),
        r matches Some(n) ==> 0 <= n == enclosed(path@),
{
    let n = path.len();
    let mut west: u128 = 0;
    let mut east: u128 = 0;
    let mut i: usize = 0;
    proof {
        lemma_shoelace_by_rows(path@.take(1));
    }
    while i < n - 1
        invariant
            n == path.len(),
            n >= 1,
            unit_steps(path@),
            0 <= i <= n - 1,
            west == row_sums(path@.take(i + 1)).0,
            east == row_sums(path@.take(i + 1)).1,
        decreases n - 1 - i,
    {
        let a = path[i];
        let b = path[i + 1];
        proof {
            let q = path@.take(i + 2);
            assert(q.drop_last() =~= path@.take(i + 1));
            assert forall|j: int| 0 <= j < q.len() - 1 implies #[trigger] step_at(q, j) by {
                assert(step_at(path@, j));
            }
            lemma_shoelace_by_rows(q);
            lemma_product_bound(i + 2, usize::MAX as int, 0xffff_ffff_ffff_ffff);
        }
        if b.x < a.x {
            west = west + a.y as u128;
        } else if a.x < b.x {
            east = east + a.y as u128;
        }
        i += 1;
    }
    proof {
        assert(path@.take(n as int) =~= path@);
        lemma_shoelace_by_rows(path@);
    }
    let area: u128 = if west >= east {
        west - east
    } else {
        east - west
    };
    let half: u128 = ((n - 1) / 2) as u128;
    proof {
        lemma_product_bound(n as int, usize::MAX as int, 0xffff_ffff_ffff_ffff);
        assert(abs(shoelace_sum(path@)) == 2 * area);
    }
    if area + 1 < half {
        return None;
    }
    let inside = area + 1 - half;
    if inside <= usize::MAX as u128 {
        Some(inside as usize)
    } else {
        None
    }
}

} // verus!
