use vstd::prelude::*;

use crate::point::pt;
use crate::point::tick_safe;
use crate::point::Point;

verus! {

/// The abstract state of a grid: which cells are alive, each with the
/// generation in which it was born, plus the current generation counter.
#[verifier::ext_equal]
pub struct GridView {
    pub cells: Map<Point, u64>,
    pub generation: u64,
}

/// Some alive cell of `cells` sits at the mathematical coordinates
/// `(x, y)`. Coordinates outside the `i64` range never hold an alive cell.
pub open spec fn live_at(cells: Map<Point, u64>, x: int, y: int) -> bool {
    &&& i64::MIN <= x <= i64::MAX
    &&& i64::MIN <= y <= i64::MAX
    &&& cells.dom().contains(pt(x, y))
}

/// 1 when the condition holds, 0 otherwise.
pub open spec fn one_if(b: bool) -> int {
    if b {
        1int
    } else {
        0int
    }
}

/// How many of the eight Moore neighbors of `p` are alive in `cells`.
#[verifier::opaque]
pub open spec fn neighbor_count(cells: Map<Point, u64>, p: Point) -> int {
    one_if(live_at(cells, p.x - 1, p.y + 1)) + one_if(live_at(cells, p.x as int, p.y + 1))
        + one_if(live_at(cells, p.x + 1, p.y + 1)) + one_if(live_at(cells, p.x - 1, p.y as int))
        + one_if(live_at(cells, p.x + 1, p.y as int)) + one_if(live_at(cells, p.x - 1, p.y - 1))
        + one_if(live_at(cells, p.x as int, p.y - 1)) + one_if(live_at(cells, p.x + 1, p.y - 1))
}

/// An alive cell survives the tick when it has two or three alive
/// neighbors.
pub open spec fn survives(cells: Map<Point, u64>, p: Point) -> bool {
    cells.dom().contains(p) && 2 <= neighbor_count(cells, p) <= 3
}

/// A dead cell is born in the tick when it has exactly three alive
/// neighbors.
pub open spec fn born(cells: Map<Point, u64>, p: Point) -> bool {
    !cells.dom().contains(p) && neighbor_count(cells, p) == 3
}

/// The alive set one generation later: survivors keep their original birth
/// stamp, newborn cells are stamped with `new_gen`. Every cell is judged
/// against the same pre-tick snapshot `cells`.
pub open spec fn next_cells(cells: Map<Point, u64>, new_gen: u64) -> Map<Point, u64> {
    Map::new(
        |p: Point| survives(cells, p) || born(cells, p),
        |p: Point|
            if cells.dom().contains(p) {
                cells[p]
            } else {
                new_gen
            },
    )
}

/// The whole grid state one tick later.
pub open spec fn stepped(v: GridView) -> GridView {
    GridView {
        cells: next_cells(v.cells, (v.generation + 1) as u64),
        generation: (v.generation + 1) as u64,
    }
}

/// The grid state after `n` ticks.
pub open spec fn stepped_n(v: GridView, n: nat) -> GridView
    decreases n,
{
    if n == 0 {
        v
    } else {
        stepped(stepped_n(v, (n - 1) as nat))
    }
}

/// The state of a fresh grid seeded with `points`: every distinct point of
/// the input is alive with birth generation 0, and the counter starts at 0.
pub open spec fn seeded(points: Seq<Point>) -> GridView {
    GridView {
        cells: Map::new(|p: Point| points.contains(p), |p: Point| 0u64),
        generation: 0,
    }
}

/// The state after adding `p`: a no-op when `p` is already alive (its
/// original birth stamp is kept), otherwise `p` enters stamped with the
/// current generation.
pub open spec fn added(v: GridView, p: Point) -> GridView {
    if v.cells.dom().contains(p) {
        v
    } else {
        GridView { cells: v.cells.insert(p, v.generation), generation: v.generation }
    }
}

/// The state after removing `p` from the alive set.
pub open spec fn removed(v: GridView, p: Point) -> GridView {
    GridView { cells: v.cells.remove(p), generation: v.generation }
}

/// The reported age of `p`: current generation minus birth generation when
/// `p` is alive, absent otherwise.
pub open spec fn age_in(v: GridView, p: Point) -> Option<u64> {
    if v.cells.dom().contains(p) {
        Some((v.generation - v.cells[p]) as u64)
    } else {
        None
    }
}

/// Every alive cell was born no later than the current generation.
pub open spec fn stamps_valid(v: GridView) -> bool {
    forall|p: Point| #[trigger] v.cells.dom().contains(p) ==> v.cells[p] <= v.generation
}

/// Every alive cell is far enough from the coordinate limits for a tick.
pub open spec fn all_tick_safe(cells: Map<Point, u64>) -> bool {
    forall|p: Point| #[trigger] cells.dom().contains(p) ==> tick_safe(p)
}

} // verus!
