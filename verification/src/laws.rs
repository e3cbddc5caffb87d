use vstd::prelude::*;

use crate::point::pt;
use crate::point::Point;
use crate::rule::added;
use crate::rule::age_in;
use crate::rule::live_at;
use crate::rule::neighbor_count;
use crate::rule::removed;
use crate::rule::seeded;
use crate::rule::stepped;
use crate::rule::stepped_n;
use crate::rule::GridView;

verus! {

/// Determinism: two grids seeded from the same point sequence are the same
/// state, and tick to the same state.
pub proof fn lemma_determinism(points: Seq<Point>, a: GridView, b: GridView)
    requires
        a == seeded(points),
        b == seeded(points),
    ensures
        a == b,
        stepped(a) == stepped(b),
{
}

/// Underpopulation: an alive cell with at most one alive neighbor does not
/// survive a tick.
pub proof fn lemma_underpopulation(v: GridView, p: Point)
    requires
        v.cells.dom().contains(p),
        neighbor_count(v.cells, p) <= 1,
    ensures
        !stepped(v).cells.dom().contains(p),
{
}

/// Overpopulation: an alive cell with four or more alive neighbors does
/// not survive a tick.
pub proof fn lemma_overpopulation(v: GridView, p: Point)
    requires
        v.cells.dom().contains(p),
        neighbor_count(v.cells, p) >= 4,
    ensures
        !stepped(v).cells.dom().contains(p),
{
}

/// Birth: a dead cell with exactly three alive neighbors becomes alive,
/// stamped with the new generation.
pub proof fn lemma_birth(v: GridView, p: Point)
    requires
        !v.cells.dom().contains(p),
        neighbor_count(v.cells, p) == 3,
        v.generation < u64::MAX,
    ensures
        stepped(v).cells.dom().contains(p),
        stepped(v).cells[p] == v.generation + 1,
{
}

/// Survival preserves age lineage: an alive cell with two or three alive
/// neighbors stays alive through a tick with its birth stamp unchanged,
/// even though the generation counter advances.
pub proof fn lemma_survival_keeps_birth(v: GridView, p: Point)
    requires
        v.cells.dom().contains(p),
        2 <= neighbor_count(v.cells, p) <= 3,
    ensures
        stepped(v).cells.dom().contains(p),
        stepped(v).cells[p] == v.cells[p],
{
}

/// A cell alive both before and after a tick kept its birth stamp: only
/// dead cells are ever (re)stamped.
pub proof fn lemma_alive_keeps_birth(v: GridView, p: Point)
    requires
        v.cells.dom().contains(p),
        stepped(v).cells.dom().contains(p),
    ensures
        stepped(v).cells[p] == v.cells[p],
{
}

/// Generation monotonicity: `n` ticks advance the counter by exactly `n`,
/// for every starting state and every `n`, including `n == 0`.
pub proof fn lemma_generation_monotonic(v: GridView, n: nat)
    requires
        v.generation + n <= u64::MAX,
    ensures
        stepped_n(v, n).generation == v.generation + n,
    decreases n,
{
    if n > 0 {
        lemma_generation_monotonic(v, (n - 1) as nat);
    }
}

/// Adding an already-alive point is a no-op: its original birth stamp is
/// kept, so every reported age is what it would have been without the
/// call.
pub proof fn lemma_add_alive_preserves_age(v: GridView, p: Point)
    requires
        v.cells.dom().contains(p),
    ensures
        added(v, p) == v,
        forall|q: Point| age_in(added(v, p), q) == age_in(v, q),
{
}

/// Removing an already-dead point is a no-op, and its reported age is
/// absent before and after.
pub proof fn lemma_remove_dead_is_noop(v: GridView, p: Point)
    requires
        !v.cells.dom().contains(p),
    ensures
        removed(v, p) == v,
        age_in(v, p) == None::<u64>,
        age_in(removed(v, p), p) == None::<u64>,
{
    assert(v.cells.remove(p) =~= v.cells);
    assert(removed(v, p) =~= v);
}

/// Removing a point twice is the same as removing it once.
pub proof fn lemma_remove_idempotent(v: GridView, p: Point)
    ensures
        removed(removed(v, p), p) == removed(v, p),
{
    assert(removed(v, p).cells.remove(p) =~= removed(v, p).cells);
    assert(removed(removed(v, p), p) =~= removed(v, p));
}

/// Locality: every cell alive after a tick lies within one step of a cell
/// that was alive before it — nothing appears far from the old alive set.
pub proof fn lemma_stepped_stays_near(v: GridView, p: Point)
    requires
        stepped(v).cells.dom().contains(p),
    ensures
        exists|c: Point|
            #[trigger] v.cells.dom().contains(c) && -1 <= p.x - c.x <= 1 && -1 <= p.y - c.y <= 1,
{
    reveal(crate::rule::neighbor_count);
    if v.cells.dom().contains(p) {
        assert(v.cells.dom().contains(p) && -1 <= p.x - p.x <= 1 && -1 <= p.y - p.y <= 1);
    } else {
        assert(neighbor_count(v.cells, p) == 3);
        if live_at(v.cells, p.x - 1, p.y + 1) {
            let c = pt(p.x - 1, p.y + 1);
            assert(v.cells.dom().contains(c) && -1 <= p.x - c.x <= 1 && -1 <= p.y - c.y <= 1);
        } else if live_at(v.cells, p.x as int, p.y + 1) {
            let c = pt(p.x as int, p.y + 1);
            assert(v.cells.dom().contains(c) && -1 <= p.x - c.x <= 1 && -1 <= p.y - c.y <= 1);
        } else if live_at(v.cells, p.x + 1, p.y + 1) {
            let c = pt(p.x + 1, p.y + 1);
            assert(v.cells.dom().contains(c) && -1 <= p.x - c.x <= 1 && -1 <= p.y - c.y <= 1);
        } else if live_at(v.cells, p.x - 1, p.y as int) {
            let c = pt(p.x - 1, p.y as int);
            assert(v.cells.dom().contains(c) && -1 <= p.x - c.x <= 1 && -1 <= p.y - c.y <= 1);
        } else if live_at(v.cells, p.x + 1, p.y as int) {
            let c = pt(p.x + 1, p.y as int);
            assert(v.cells.dom().contains(c) && -1 <= p.x - c.x <= 1 && -1 <= p.y - c.y <= 1);
        } else if live_at(v.cells, p.x - 1, p.y - 1) {
            let c = pt(p.x - 1, p.y - 1);
            assert(v.cells.dom().contains(c) && -1 <= p.x - c.x <= 1 && -1 <= p.y - c.y <= 1);
        } else if live_at(v.cells, p.x as int, p.y - 1) {
            let c = pt(p.x as int, p.y - 1);
            assert(v.cells.dom().contains(c) && -1 <= p.x - c.x <= 1 && -1 <= p.y - c.y <= 1);
        } else {
            assert(live_at(v.cells, p.x + 1, p.y - 1));
            let c = pt(p.x + 1, p.y - 1);
            assert(v.cells.dom().contains(c) && -1 <= p.x - c.x <= 1 && -1 <= p.y - c.y <= 1);
        }
    }
}

/// A cell that stays alive through `k` consecutive ticks keeps its birth
/// stamp through all of them, while the counter advances by `k`.
pub proof fn lemma_survivor_stamp_constant(v: GridView, p: Point, k: nat)
    requires
        v.cells.dom().contains(p),
        v.generation + k <= u64::MAX,
        forall|i: nat| i <= k ==> (#[trigger] stepped_n(v, i)).cells.dom().contains(p),
    ensures
        stepped_n(v, k).cells[p] == v.cells[p],
        stepped_n(v, k).generation == v.generation + k,
    decreases k,
{
    lemma_generation_monotonic(v, k);
    if k > 0 {
        lemma_survivor_stamp_constant(v, p, (k - 1) as nat);
        let w = stepped_n(v, (k - 1) as nat);
        assert(stepped_n(v, (k - 1) as nat).cells.dom().contains(p));
        assert(stepped_n(v, k).cells.dom().contains(p));
        lemma_alive_keeps_birth(w, p);
    }
}

/// Round trip of age: a cell added while dead at generation `G` reports
/// age 0 at once, and age `k` after `k` ticks through which it stays
/// alive.
pub proof fn lemma_age_round_trip(v: GridView, p: Point, k: nat)
    requires
        !v.cells.dom().contains(p),
        v.generation + k <= u64::MAX,
        forall|i: nat| i <= k ==> (#[trigger] stepped_n(added(v, p), i)).cells.dom().contains(p),
    ensures
        age_in(added(v, p), p) == Some(0u64),
        age_in(stepped_n(added(v, p), k), p) == Some(k as u64),
{
    let w = added(v, p);
    assert(w.cells.dom().contains(p)) by {
        assert(stepped_n(w, 0nat) == w);
        assert(stepped_n(w, 0nat).cells.dom().contains(p));
    }
    assert(w.cells[p] == v.generation);
    lemma_survivor_stamp_constant(w, p, k);
}

} // verus!

