use vstd::prelude::*;

use rand::Rng;

use crate::point::has_neighbor_room;
use crate::point::neighbors;
use crate::point::pt;
use crate::point::spec_neighbors;
use crate::point::tick_safe;
use crate::point::Point;
use crate::rule::added;
use crate::rule::age_in;
use crate::rule::all_tick_safe;
use crate::rule::born;
use crate::rule::live_at;
use crate::rule::neighbor_count;
use crate::rule::next_cells;
use crate::rule::one_if;
use crate::rule::removed;
use crate::rule::seeded;
use crate::rule::stamps_valid;
use crate::rule::stepped;
use crate::rule::survives;
use crate::rule::GridView;

verus! {

// ---------------------------------------------------------------------------
// The backing store: a vector of (point, birth generation) entries with
// pairwise distinct points, read as a finite map.
// ---------------------------------------------------------------------------

/// The stored points are pairwise distinct.
pub(crate) open spec fn entries_distinct(s: Seq<(Point, u64)>) -> bool {
    forall|i: int, j: int| 0 <= i < j < s.len() ==> (#[trigger] s[i]).0 != (#[trigger] s[j]).0
}

/// Some entry of `s` holds the point `p`.
pub(crate) open spec fn has_point(s: Seq<(Point, u64)>, p: Point) -> bool {
    exists|i: int| 0 <= i < s.len() && (#[trigger] s[i]).0 == p
}

/// The mapping that the entries of `s` spell out, later entries winning.
pub(crate) open spec fn map_of(s: Seq<(Point, u64)>) -> Map<Point, u64>
    decreases s.len(),
{
    if s.len() == 0 {
        Map::empty()
    } else {
        map_of(s.drop_last()).insert(s.last().0, s.last().1)
    }
}

/// A point is in the domain of `map_of(s)` exactly when some entry holds it.
pub(crate) proof fn lemma_map_of_dom(s: Seq<(Point, u64)>)
    ensures
        forall|p: Point| #[trigger] map_of(s).dom().contains(p) <==> has_point(s, p),
    decreases s.len(),
{
    if s.len() > 0 {
        lemma_map_of_dom(s.drop_last());
        assert(map_of(s) == map_of(s.drop_last()).insert(s.last().0, s.last().1));
        assert forall|p: Point| #[trigger] map_of(s).dom().contains(p) <==> has_point(s, p) by {
            if map_of(s).dom().contains(p) {
                if p == s.last().0 {
                    assert(s[s.len() - 1].0 == p);
                } else {
                    assert(map_of(s.drop_last()).dom().contains(p));
                    assert(has_point(s.drop_last(), p));
                    let i = choose|i: int|
                        0 <= i < s.drop_last().len() && (#[trigger] s.drop_last()[i]).0 == p;
                    assert(s[i].0 == p);
                }
            }
            if has_point(s, p) {
                let i = choose|i: int| 0 <= i < s.len() && (#[trigger] s[i]).0 == p;
                if i < s.len() - 1 {
                    assert(s.drop_last()[i].0 == p);
                    assert(has_point(s.drop_last(), p));
                    assert(map_of(s.drop_last()).dom().contains(p));
                }
                assert(map_of(s).dom().contains(p));
            }
        }
    }
}

/// With distinct points, the entry at index `i` gives the map's value.
pub(crate) proof fn lemma_map_of_index(s: Seq<(Point, u64)>, i: int)
    requires
        entries_distinct(s),
        0 <= i < s.len(),
    ensures
        map_of(s).dom().contains(s[i].0),
        map_of(s)[s[i].0] == s[i].1,
    decreases s.len(),
{
    if i == s.len() - 1 {
        lemma_map_of_dom(s);
    } else {
        assert(entries_distinct(s.drop_last())) by {
            assert forall|a: int, b: int| 0 <= a < b < s.drop_last().len() implies (#[trigger] s
                .drop_last()[a]).0 != (#[trigger] s.drop_last()[b]).0 by {
                assert(s[a] == s.drop_last()[a]);
                assert(s[b] == s.drop_last()[b]);
            }
        }
        lemma_map_of_index(s.drop_last(), i);
        assert(s.drop_last()[i] == s[i]);
        assert(s[i].0 != s.last().0);
    }
}

/// With distinct points, the map is finite and exactly as large as `s`.
pub(crate) proof fn lemma_map_of_len(s: Seq<(Point, u64)>)
    requires
        entries_distinct(s),
    ensures
        map_of(s).dom().finite(),
        map_of(s).dom().len() == s.len(),
    decreases s.len(),
{
    if s.len() > 0 {
        assert(entries_distinct(s.drop_last())) by {
            assert forall|a: int, b: int| 0 <= a < b < s.drop_last().len() implies (#[trigger] s
                .drop_last()[a]).0 != (#[trigger] s.drop_last()[b]).0 by {
                assert(s[a] == s.drop_last()[a]);
                assert(s[b] == s.drop_last()[b]);
            }
        }
        lemma_map_of_len(s.drop_last());
        lemma_map_of_dom(s.drop_last());
        assert(!has_point(s.drop_last(), s.last().0)) by {
            if has_point(s.drop_last(), s.last().0) {
                let i = choose|i: int|
                    0 <= i < s.drop_last().len() && (#[trigger] s.drop_last()[i]).0 == s.last().0;
                assert(s[i].0 == s[s.len() - 1].0);
            }
        }
    }
}

/// Relies on rand's `thread_rng` and `Rng::gen_range`: a value drawn
/// uniformly from the non-empty half-open range `[low, high)` always lies
/// inside it. Nothing more is assumed of which value comes back.
#[verifier::external_body]
fn sample_coord(low: i64, high: i64) -> (r: i64)
    requires
        low < high,
    ensures
        low <= r < high,
{
    rand::thread_rng().gen_range(low..high)
}

/// Whether some entry of `v` holds the point `p`.
fn vec_has_point(v: &Vec<(Point, u64)>, p: Point) -> (r: bool)
    ensures
        r == has_point(v@, p),
{
    let mut i: usize = 0;
    let mut found = false;
    while i < v.len()
        invariant
            i <= v@.len(),
            found <==> exists|j: int| 0 <= j < i && (#[trigger] v@[j]).0 == p,
        decreases v@.len() - i,
    {
        if v[i].0 == p {
            found = true;
            assert(v@[i as int].0 == p);
        }
        i += 1;
    }
    found
}

// ---------------------------------------------------------------------------
// The grid itself.
// ---------------------------------------------------------------------------

/// The simulation state: the set of alive cells, each with the generation
/// in which it was born, and the current generation counter. Any point not
/// stored is dead, which keeps an unbounded board at a memory cost
/// proportional to the number of alive cells.
#[derive(Debug)]
pub struct Grid {
    cells: Vec<(Point, u64)>,
    generation: u64,
}

impl View for Grid {
    type V = GridView;

    closed spec fn view(&self) -> GridView {
        GridView { cells: map_of(self.cells@), generation: self.generation }
    }
}

impl Grid {
    /// Internal invariant: stored points are pairwise distinct, and every
    /// birth stamp is at most the current generation.
    pub closed spec fn wf(self) -> bool {
        &&& entries_distinct(self.cells@)
        &&& forall|i: int|
            0 <= i < self.cells@.len() ==> (#[trigger] self.cells@[i]).1 <= self.generation
    }

    /// What the invariant yields about the abstract state: the alive set is
    /// finite and no cell was born after the current generation.
    pub proof fn lemma_wf_facts(self)
        requires
            self.wf(),
        ensures
            self@.cells.dom().finite(),
            stamps_valid(self@),
    {
        lemma_map_of_len(self.cells@);
        lemma_map_of_dom(self.cells@);
        assert forall|p: Point| #[trigger] self@.cells.dom().contains(p) implies self@.cells[p]
            <= self@.generation by {
            let i = choose|i: int| 0 <= i < self.cells@.len() && (#[trigger] self.cells@[i]).0 == p;
            lemma_map_of_index(self.cells@, i);
        }
    }

    /// A grid with no alive cells, at generation 0.
    pub fn empty() -> (g: Grid)
        ensures
            g.wf(),
            g@.cells == Map::<Point, u64>::empty(),
            g@.generation == 0,
    {
        let g = Grid { cells: Vec::new(), generation: 0 };
        proof {
            assert(g@.cells =~= Map::<Point, u64>::empty());
        }
        g
    }

    /// The current generation counter.
    pub fn generation(&self) -> (r: u64)
        ensures
            r == self@.generation,
    {
        self.generation
    }

    /// The number of alive cells.
    pub fn num_alive(&self) -> (r: usize)
        requires
            self.wf(),
        ensures
            r == self@.cells.dom().len(),
    {
        proof {
            lemma_map_of_len(self.cells@);
        }
        self.cells.len()
    }

    /// Whether `point` is currently alive.
    pub fn contains_point(&self, point: &Point) -> (r: bool)
        ensures
            r == self@.cells.dom().contains(*point),
    {
        proof {
            lemma_map_of_dom(self.cells@);
        }
        vec_has_point(&self.cells, *point)
    }

    /// The birth generation recorded for `point`, if it is alive.
    pub fn birth_of_point(&self, point: &Point) -> (r: Option<u64>)
        requires
            self.wf(),
        ensures
            r == if self@.cells.dom().contains(*point) {
                Some(self@.cells[*point])
            } else {
                None::<u64>
            },
    {
        proof {
            lemma_map_of_dom(self.cells@);
        }
        let mut i: usize = 0;
        let mut r: Option<u64> = None;
        while i < self.cells.len()
            invariant
                i <= self.cells@.len(),
                entries_distinct(self.cells@),
                match r {
                    Some(b) => exists|j: int|
                        0 <= j < i && (#[trigger] self.cells@[j]).0 == *point && self.cells@[j].1
                            == b,
                    None => forall|j: int| 0 <= j < i ==> (#[trigger] self.cells@[j]).0 != *point,
                },
            decreases self.cells@.len() - i,
        {
            let (p, b) = self.cells[i];
            if p == *point {
                r = Some(b);
                assert(self.cells@[i as int].0 == *point && self.cells@[i as int].1 == b);
            }
            i += 1;
        }
        proof {
            match r {
                Some(b) => {
                    let j = choose|j: int|
                        0 <= j < self.cells@.len() && (#[trigger] self.cells@[j]).0 == *point
                            && self.cells@[j].1 == b;
                    lemma_map_of_index(self.cells@, j);
                },
                None => {},
            }
        }
        r
    }

    /// The age of `point`: current generation minus birth generation if it
    /// is alive, absent otherwise. Non-mutating.
    pub fn age_of_point(&self, point: &Point) -> (r: Option<u64>)
        requires
            self.wf(),
        ensures
            r == age_in(self@, *point),
    {
        proof {
            self.lemma_wf_facts();
        }
        match self.birth_of_point(point) {
            Some(birth) => Some(self.generation - birth),
            None => None,
        }
    }

    /// Inserts `point` stamped with the current generation; a no-op when it
    /// is already alive, so an existing cell keeps its original birth stamp.
    pub fn add_point(&mut self, point: Point)
        requires
            old(self).wf(),
        ensures
            final(self).wf(),
            final(self)@ == added(old(self)@, point),
    {
        proof {
            lemma_map_of_dom(self.cells@);
        }
        let ghost s0 = self.cells@;
        if !vec_has_point(&self.cells, point) {
            self.cells.push((point, self.generation));
            proof {
                assert(self.cells@.drop_last() =~= s0);
                assert(map_of(self.cells@) =~= map_of(s0).insert(point, self.generation));
                assert forall|i: int, j: int|
                    0 <= i < j < self.cells@.len() implies (#[trigger] self.cells@[i]).0
                    != (#[trigger] self.cells@[j]).0 by {
                    if j == self.cells@.len() - 1 {
                        assert(self.cells@[i] == s0[i]);
                        assert(!has_point(s0, point));
                    } else {
                        assert(self.cells@[i] == s0[i]);
                        assert(self.cells@[j] == s0[j]);
                    }
                }
                assert(self@ =~= added(old(self)@, point));
            }
        } else {
            proof {
                assert(self@ =~= added(old(self)@, point));
            }
        }
    }

    /// Deletes `point` from the alive set if present; a no-op otherwise.
    #[verifier::loop_isolation(false)]
    pub fn remove_point(&mut self, point: &Point)
        requires
            old(self).wf(),
        ensures
            final(self).wf(),
            final(self)@ == removed(old(self)@, *point),
    {
        proof {
            lemma_map_of_dom(self.cells@);
        }
        let ghost s0 = self.cells@;
        let mut out: Vec<(Point, u64)> = Vec::new();
        let mut i: usize = 0;
        while i < self.cells.len()
            invariant
                i <= s0.len(),
                self.cells@ == s0,
                entries_distinct(out@),
                forall|j: int| 0 <= j < out@.len() ==> (#[trigger] out@[j]).0 != *point,
                forall|j: int|
                    0 <= j < out@.len() ==> exists|k: int|
                        0 <= k < i && s0[k] == (#[trigger] out@[j]),
                forall|k: int| 0 <= k < i && (#[trigger] s0[k]).0 != *point ==> out@.contains(s0[k]),
            decreases s0.len() - i,
        {
            let e = self.cells[i];
            let ghost prev = out@;
            if !(e.0 == *point) {
                out.push(e);
                assert(out@[out@.len() - 1] == s0[i as int]);
            }
            proof {
                assert forall|k: int|
                    0 <= k < i + 1 && (#[trigger] s0[k]).0 != *point implies out@.contains(
                    s0[k],
                ) by {
                    if k < i {
                        assert(prev.contains(s0[k]));
                        let j = choose|j: int| 0 <= j < prev.len() && prev[j] == s0[k];
                        assert(out@[j] == s0[k]);
                    } else {
                        assert(out@[out@.len() - 1] == s0[k]);
                    }
                }
            }
            i += 1;
        }
        proof {
            lemma_map_of_dom(out@);
            assert forall|q: Point| #[trigger] map_of(out@).dom().contains(q) implies map_of(
                s0,
            ).remove(*point).dom().contains(q) && map_of(out@)[q] == map_of(s0).remove(*point)[q] by {
                let j = choose|j: int| 0 <= j < out@.len() && (#[trigger] out@[j]).0 == q;
                lemma_map_of_index(out@, j);
                let k = choose|k: int| 0 <= k < s0.len() && s0[k] == out@[j];
                lemma_map_of_index(s0, k);
            }
            assert forall|q: Point| #[trigger] map_of(s0).remove(*point).dom().contains(
                q,
            ) implies map_of(out@).dom().contains(q) by {
                assert(map_of(s0).dom().contains(q));
                let k = choose|k: int| 0 <= k < s0.len() && (#[trigger] s0[k]).0 == q;
                assert(out@.contains(s0[k]));
                let j = choose|j: int| 0 <= j < out@.len() && (#[trigger] out@[j]) == s0[k];
                assert(out@[j].0 == q);
            }
            assert(map_of(out@) =~= map_of(s0).remove(*point));
            assert forall|j: int| 0 <= j < out@.len() implies (#[trigger] out@[j]).1
                <= self.generation by {
                let k = choose|k: int| 0 <= k < s0.len() && s0[k] == (#[trigger] out@[j]);
            }
        }
        self.cells = out;
        proof {
            assert(self@ =~= removed(old(self)@, *point));
        }
    }

    /// A grid at generation 0 whose alive set is exactly the distinct
    /// points of the input, each stamped with birth generation 0; duplicate
    /// input points collapse to one cell.
    #[verifier::loop_isolation(false)]
    pub fn with_points(points: &Vec<Point>) -> (g: Grid)
        ensures
            g.wf(),
            g@ == seeded(points@),
    {
        let mut g = Grid::empty();
        let mut i: usize = 0;
        while i < points.len()
            invariant
                i <= points@.len(),
                g.wf(),
                g@.generation == 0,
                forall|q: Point|
                    #[trigger] g@.cells.dom().contains(q) <==> exists|j: int|
                        0 <= j < i && points@[j] == q,
                forall|q: Point| #[trigger] g@.cells.dom().contains(q) ==> g@.cells[q] == 0,
            decreases points@.len() - i,
        {
            let ghost before = g@;
            g.add_point(points[i]);
            proof {
                assert(points@[i as int] == points[i as int]);
                assert forall|q: Point| #[trigger] g@.cells.dom().contains(q) implies exists|j: int|
                    0 <= j < i + 1 && points@[j] == q by {
                    if before.cells.dom().contains(q) {
                        let j = choose|j: int| 0 <= j < i && points@[j] == q;
                        assert(0 <= j < i + 1 && points@[j] == q);
                    } else {
                        assert(points@[i as int] == q);
                    }
                }
            }
            i += 1;
        }
        proof {
            assert forall|q: Point| #[trigger] g@.cells.dom().contains(q) <==> points@.contains(
                q,
            ) by {
                if g@.cells.dom().contains(q) {
                    let j = choose|j: int| 0 <= j < points@.len() && points@[j] == q;
                }
                if points@.contains(q) {
                    let j = choose|j: int| 0 <= j < points@.len() && points@[j] == q;
                }
            }
            assert(g@.cells =~= seeded(points@).cells);
            assert(g@ =~= seeded(points@));
        }
        g
    }

    /// How many of the eight Moore neighbors of `point` are alive,
    /// evaluated against this grid's present cell set.
    fn count_neighbors(&self, point: &Point) -> (count: usize)
        requires
            has_neighbor_room(*point),
        ensures
            count == neighbor_count(self@.cells, *point),
    {
        proof {
            reveal(crate::rule::neighbor_count);
        }
        let ghost snap = self@.cells;
        let mut count: usize = 0;
        if self.contains_point(&Point { x: point.x - 1, y: point.y + 1 }) {
            count += 1;
        }
        assert(count == one_if(live_at(snap, point.x - 1, point.y + 1)));
        let c1: usize = count;
        if self.contains_point(&Point { x: point.x, y: point.y + 1 }) {
            count += 1;
        }
        assert(count == c1 + one_if(live_at(snap, point.x as int, point.y + 1)));
        let c2: usize = count;
        if self.contains_point(&Point { x: point.x + 1, y: point.y + 1 }) {
            count += 1;
        }
        assert(count == c2 + one_if(live_at(snap, point.x + 1, point.y + 1)));
        let c3: usize = count;
        if self.contains_point(&Point { x: point.x - 1, y: point.y }) {
            count += 1;
        }
        assert(count == c3 + one_if(live_at(snap, point.x - 1, point.y as int)));
        let c4: usize = count;
        if self.contains_point(&Point { x: point.x + 1, y: point.y }) {
            count += 1;
        }
        assert(count == c4 + one_if(live_at(snap, point.x + 1, point.y as int)));
        let c5: usize = count;
        if self.contains_point(&Point { x: point.x - 1, y: point.y - 1 }) {
            count += 1;
        }
        assert(count == c5 + one_if(live_at(snap, point.x - 1, point.y - 1)));
        let c6: usize = count;
        if self.contains_point(&Point { x: point.x, y: point.y - 1 }) {
            count += 1;
        }
        assert(count == c6 + one_if(live_at(snap, point.x as int, point.y - 1)));
        let c7: usize = count;
        if self.contains_point(&Point { x: point.x + 1, y: point.y - 1 }) {
            count += 1;
        }
        assert(count == c7 + one_if(live_at(snap, point.x + 1, point.y - 1)));
        count
    }

    /// Every dead point adjacent to at least one alive cell, possibly with
    /// repetitions. Only such points can be born in a tick.
    #[verifier::loop_isolation(false)]
    fn dead_candidates(&self) -> (out: Vec<Point>)
        requires
            self.wf(),
            all_tick_safe(self@.cells),
        ensures
            forall|j: int|
                0 <= j < out@.len() ==> !self@.cells.dom().contains(#[trigger] out@[j])
                    && has_neighbor_room(out@[j]) && neighbor_count(self@.cells, out@[j]) > 0,
            forall|p: Point|
                !self@.cells.dom().contains(p) && neighbor_count(self@.cells, p) > 0
                    ==> out@.contains(p),
    {
        proof {
            lemma_map_of_dom(self.cells@);
        }
        let ghost s0 = self.cells@;
        let ghost snap = self@.cells;
        let mut out: Vec<Point> = Vec::new();
        let mut i: usize = 0;
        while i < self.cells.len()
            invariant
                i <= s0.len(),
                self.cells@ == s0,
                forall|j: int|
                    0 <= j < out@.len() ==> !snap.dom().contains(#[trigger] out@[j])
                        && has_neighbor_room(out@[j]) && neighbor_count(snap, out@[j]) > 0,
                forall|k: int, m: int|
                    0 <= k < i && 0 <= m < 8 && !snap.dom().contains(
                        #[trigger] spec_neighbors(s0[k].0)[m],
                    ) ==> out@.contains(spec_neighbors(s0[k].0)[m]),
            decreases s0.len() - i,
        {
            let e = self.cells[i];
            let p = e.0;
            proof {
                assert(s0[i as int].0 == p);
                assert(snap.dom().contains(p));
                assert(tick_safe(p));
            }
            let nv = neighbors(p);
            assert(spec_neighbors(p).len() == 8);
            let mut m: usize = 0;
            while m < 8
                invariant
                    m <= 8,
                    nv@ == spec_neighbors(p),
                    self.cells@ == s0,
                    forall|j: int|
                        0 <= j < out@.len() ==> !snap.dom().contains(#[trigger] out@[j])
                            && has_neighbor_room(out@[j]) && neighbor_count(snap, out@[j]) > 0,
                    forall|k: int, mm: int|
                        0 <= k < i && 0 <= mm < 8 && !snap.dom().contains(
                            #[trigger] spec_neighbors(s0[k].0)[mm],
                        ) ==> out@.contains(spec_neighbors(s0[k].0)[mm]),
                    forall|mm: int|
                        0 <= mm < m && !snap.dom().contains(#[trigger] spec_neighbors(p)[mm])
                            ==> out@.contains(spec_neighbors(p)[mm]),
                decreases 8 - m,
            {
                let q = nv[m];
                let ghost prev = out@;
                if !self.contains_point(&q) {
                    out.push(q);
                    assert(out@[out@.len() - 1] == q);
                    proof {
                        assert(tick_safe(p));
                        assert(has_neighbor_room(q));
                        lemma_neighbor_of_alive_has_live_neighbor(snap, p, m as int);
                    }
                }
                proof {
                    assert forall|mm: int|
                        0 <= mm < m + 1 && !snap.dom().contains(
                            #[trigger] spec_neighbors(p)[mm],
                        ) implies out@.contains(spec_neighbors(p)[mm]) by {
                        if mm < m {
                            assert(prev.contains(spec_neighbors(p)[mm]));
                            let j = choose|j: int|
                                0 <= j < prev.len() && prev[j] == spec_neighbors(p)[mm];
                            assert(out@[j] == spec_neighbors(p)[mm]);
                        } else {
                            assert(spec_neighbors(p)[mm] == q);
                        }
                    }
                    assert forall|k: int, mm: int|
                        0 <= k < i && 0 <= mm < 8 && !snap.dom().contains(
                            #[trigger] spec_neighbors(s0[k].0)[mm],
                        ) implies out@.contains(spec_neighbors(s0[k].0)[mm]) by {
                        assert(prev.contains(spec_neighbors(s0[k].0)[mm]));
                        let j = choose|j: int|
                            0 <= j < prev.len() && prev[j] == spec_neighbors(s0[k].0)[mm];
                        assert(out@[j] == spec_neighbors(s0[k].0)[mm]);
                    }
                }
                m += 1;
            }
            proof {
                assert(s0[i as int].0 == p);
            }
            i += 1;
        }
        proof {
            assert forall|p: Point|
                !snap.dom().contains(p) && neighbor_count(snap, p) > 0 implies out@.contains(
                p,
            ) by {
                lemma_live_neighbor_witness(snap, p);
                let c = choose|c: Point|
                    #[trigger] snap.dom().contains(c) && spec_neighbors(c).contains(p);
                assert(has_point(s0, c));
                let k = choose|k: int| 0 <= k < s0.len() && (#[trigger] s0[k]).0 == c;
                let m = choose|m: int|
                    0 <= m < spec_neighbors(c).len() && spec_neighbors(c)[m] == p;
                assert(spec_neighbors(s0[k].0)[m] == p);
            }
        }
        out
    }

    /// A grid at generation 0 scattered with uniformly drawn points inside
    /// the rectangle from `top_left` (inclusive) to `bottom_right`
    /// (exclusive on each axis). About 80% of the rectangle's area is
    /// sampled; duplicate draws silently collapse, so the realized count
    /// is itself random but never above that target.
    #[verifier::loop_isolation(false)]
    pub fn random(top_left: Point, bottom_right: Point) -> (g: Grid)
        requires
            top_left.x < bottom_right.x,
            top_left.y < bottom_right.y,
            (bottom_right.x - top_left.x) * (bottom_right.y - top_left.y) * 8 <= i64::MAX,
        ensures
            g.wf(),
            g@.generation == 0,
            forall|p: Point| #[trigger]
                g@.cells.dom().contains(p) ==> top_left.x <= p.x < bottom_right.x && top_left.y
                    <= p.y < bottom_right.y && g@.cells[p] == 0,
            g@.cells.dom().len() <= (bottom_right.x - top_left.x) * (bottom_right.y - top_left.y)
                * 8 / 10,
            (bottom_right.x - top_left.x) * (bottom_right.y - top_left.y) * 8 / 10 >= 1
                ==> g@.cells.dom().len() >= 1,
    {
        proof {
            let gw: int = bottom_right.x - top_left.x;
            let gh: int = bottom_right.y - top_left.y;
            assert(gw <= gw * gh * 8 && gh <= gw * gh * 8 && gw * gh <= gw * gh * 8 && gw * gh
                * 8 >= 8)
                by (nonlinear_arith)
                requires
                    gw >= 1,
                    gh >= 1,
            ;
        }
        let w: i64 = bottom_right.x - top_left.x;
        let h: i64 = bottom_right.y - top_left.y;
        let desired: i64 = w * h * 8 / 10;
        let mut g = Grid::empty();
        let mut i: i64 = 0;
        while i < desired
            invariant
                0 <= i <= desired,
                g.wf(),
                g@.generation == 0,
                forall|p: Point| #[trigger]
                    g@.cells.dom().contains(p) ==> top_left.x <= p.x < bottom_right.x && top_left.y
                        <= p.y < bottom_right.y && g@.cells[p] == 0,
                g@.cells.dom().len() <= i,
                i >= 1 ==> g@.cells.dom().len() >= 1,
            decreases desired - i,
        {
            let x = sample_coord(top_left.x, bottom_right.x);
            let y = sample_coord(top_left.y, bottom_right.y);
            proof {
                g.lemma_wf_facts();
            }
            g.add_point(Point { x, y });
            proof {
                g.lemma_wf_facts();
                assert(g@.cells.dom().contains(Point { x, y }));
            }
            i += 1;
        }
        g
    }

    /// Survival pass of a tick: the alive cells with two or three alive
    /// neighbors, each carrying its original birth stamp.
    #[verifier::loop_isolation(false)]
    fn survivors(&self) -> (next: Vec<(Point, u64)>)
        requires
            self.wf(),
            all_tick_safe(self@.cells),
        ensures
            entries_distinct(next@),
            forall|j: int|
                0 <= j < next@.len() ==> survives(self@.cells, (#[trigger] next@[j]).0)
                    && self@.cells[next@[j].0] == next@[j].1,
            forall|k: int|
                0 <= k < self.cells@.len() && survives(self@.cells, (#[trigger] self.cells@[k]).0)
                    ==> next@.contains(self.cells@[k]),
    {
        proof {
            lemma_map_of_dom(self.cells@);
        }
        let ghost s0 = self.cells@;
        let ghost snap = self@.cells;
        let mut next: Vec<(Point, u64)> = Vec::new();
        let mut i: usize = 0;
        while i < self.cells.len()
            invariant
                i <= s0.len(),
                entries_distinct(next@),
                forall|j: int|
                    0 <= j < next@.len() ==> survives(snap, (#[trigger] next@[j]).0)
                        && snap[next@[j].0] == next@[j].1,
                forall|j: int|
                    0 <= j < next@.len() ==> exists|k: int|
                        0 <= k < i && s0[k] == (#[trigger] next@[j]),
                forall|k: int|
                    0 <= k < i && survives(snap, (#[trigger] s0[k]).0) ==> next@.contains(s0[k]),
            decreases s0.len() - i,
        {
            let e = self.cells[i];
            proof {
                assert(s0[i as int] == e);
                lemma_map_of_index(s0, i as int);
                assert(snap.dom().contains(e.0));
                assert(tick_safe(e.0));
            }
            let c: usize = self.count_neighbors(&e.0);
            let ghost prev = next@;
            if c > 1 && c < 4 {
                next.push(e);
                assert(next@[next@.len() - 1] == e);
            }
            proof {
                assert forall|k: int|
                    0 <= k < i + 1 && survives(snap, (#[trigger] s0[k]).0) implies next@.contains(
                    s0[k],
                ) by {
                    if k < i {
                        assert(prev.contains(s0[k]));
                        let j = choose|j: int| 0 <= j < prev.len() && prev[j] == s0[k];
                        assert(next@[j] == s0[k]);
                    } else {
                        assert(next@[next@.len() - 1] == s0[k]);
                    }
                }
            }
            i += 1;
        }
        next
    }

    /// Birth pass of a tick: appends to `next` every candidate of `cand`
    /// with exactly three alive neighbors, stamped with `gnew`, leaving
    /// what was collected before in place.
    #[verifier::loop_isolation(false)]
    fn birth_pass(&self, next: &mut Vec<(Point, u64)>, cand: &Vec<Point>, gnew: u64)
        requires
            entries_distinct(old(next)@),
            forall|j: int|
                0 <= j < cand@.len() ==> !self@.cells.dom().contains(#[trigger] cand@[j])
                    && has_neighbor_room(cand@[j]),
            forall|j: int|
                0 <= j < old(next)@.len() ==> survives(self@.cells, (#[trigger] old(next)@[j]).0)
                    && self@.cells[old(next)@[j].0] == old(next)@[j].1,
        ensures
            entries_distinct(final(next)@),
            forall|j: int|
                0 <= j < final(next)@.len() ==> (survives(
                    self@.cells,
                    (#[trigger] final(next)@[j]).0,
                ) && self@.cells[final(next)@[j].0] == final(next)@[j].1) || (born(
                    self@.cells,
                    final(next)@[j].0,
                ) && final(next)@[j].1 == gnew),
            forall|x: (Point, u64)| old(next)@.contains(x) ==> final(next)@.contains(x),
            forall|k: int|
                0 <= k < cand@.len() && born(self@.cells, #[trigger] cand@[k]) ==> has_point(
                    final(next)@,
                    cand@[k],
                ),
    {
        let ghost snap = self@.cells;
        let ghost n0 = next@;
        let mut b: usize = 0;
        while b < cand.len()
            invariant
                b <= cand@.len(),
                entries_distinct(next@),
                forall|j: int|
                    0 <= j < next@.len() ==> (survives(snap, (#[trigger] next@[j]).0)
                        && snap[next@[j].0] == next@[j].1) || (born(snap, next@[j].0)
                        && next@[j].1 == gnew),
                forall|x: (Point, u64)| n0.contains(x) ==> next@.contains(x),
                forall|k: int|
                    0 <= k < b && born(snap, #[trigger] cand@[k]) ==> has_point(next@, cand@[k]),
            decreases cand@.len() - b,
        {
            let q = cand[b];
            proof {
                assert(cand@[b as int] == q);
                assert(!snap.dom().contains(q));
            }
            let c: usize = self.count_neighbors(&q);
            let ghost prev = next@;
            if c == 3 {
                push_entry_if_absent(next, q, gnew);
            }
            proof {
                assert forall|k: int|
                    0 <= k < b + 1 && born(snap, #[trigger] cand@[k]) implies has_point(
                    next@,
                    cand@[k],
                ) by {
                    if k < b {
                        let j = choose|j: int|
                            0 <= j < prev.len() && (#[trigger] prev[j]).0 == cand@[k];
                        assert(next@[j].0 == cand@[k]);
                    }
                }
                assert forall|x: (Point, u64)| n0.contains(x) implies next@.contains(x) by {
                    assert(prev.contains(x));
                    let j = choose|j: int| 0 <= j < prev.len() && prev[j] == x;
                    assert(next@[j] == x);
                }
            }
            b += 1;
        }
    }

    /// Advances the simulation by exactly one generation of the B3/S23
    /// rule: the counter increments; alive cells with two or three alive
    /// neighbors survive with their original birth stamp; dead cells with
    /// exactly three alive neighbors are born stamped with the new
    /// generation. Every cell is judged against the pre-tick snapshot.
    pub fn tick(&mut self)
        requires
            old(self).wf(),
            old(self)@.generation < u64::MAX,
            all_tick_safe(old(self)@.cells),
        ensures
            final(self).wf(),
            final(self)@ == stepped(old(self)@),
    {
        proof {
            self.lemma_wf_facts();
        }
        let ghost s0 = self.cells@;
        let ghost snap = self@.cells;
        self.generation = self.generation + 1;
        let gnew: u64 = self.generation;
        let mut next = self.survivors();
        let candidates = self.dead_candidates();
        self.birth_pass(&mut next, &candidates, gnew);
        proof {
            lemma_next_generation_assembles(s0, next@, candidates@, snap, gnew);
        }
        self.cells = next;
        proof {
            assert(self@ =~= stepped(old(self)@));
        }
    }
}

/// What the two passes of a tick leave behind is exactly the next
/// generation's mapping: the entries collected into `next` spell out
/// `next_cells(snap, gnew)`, and every birth stamp stays within `gnew`.
proof fn lemma_next_generation_assembles(
    s0: Seq<(Point, u64)>,
    next: Seq<(Point, u64)>,
    cand: Seq<Point>,
    snap: Map<Point, u64>,
    gnew: u64,
)
    requires
        snap == map_of(s0),
        entries_distinct(next),
        forall|p: Point| #[trigger] snap.dom().contains(p) ==> snap[p] < gnew,
        forall|j: int|
            0 <= j < next.len() ==> (survives(snap, (#[trigger] next[j]).0) && snap[next[j].0]
                == next[j].1) || (born(snap, next[j].0) && next[j].1 == gnew),
        forall|k: int|
            0 <= k < s0.len() && survives(snap, (#[trigger] s0[k]).0) ==> next.contains(s0[k]),
        forall|k: int|
            0 <= k < cand.len() && born(snap, #[trigger] cand[k]) ==> has_point(next, cand[k]),
        forall|p: Point|
            !snap.dom().contains(p) && neighbor_count(snap, p) > 0 ==> cand.contains(p),
    ensures
        map_of(next) == next_cells(snap, gnew),
        forall|j: int| 0 <= j < next.len() ==> (#[trigger] next[j]).1 <= gnew,
{
    lemma_map_of_dom(s0);
    lemma_map_of_dom(next);
    assert forall|q: Point| #[trigger] map_of(next).dom().contains(q) implies next_cells(
        snap,
        gnew,
    ).dom().contains(q) && map_of(next)[q] == next_cells(snap, gnew)[q] by {
        let j = choose|j: int| 0 <= j < next.len() && (#[trigger] next[j]).0 == q;
        lemma_map_of_index(next, j);
    }
    assert forall|q: Point| #[trigger] next_cells(snap, gnew).dom().contains(q) implies map_of(
        next,
    ).dom().contains(q) by {
        if survives(snap, q) {
            assert(snap.dom().contains(q));
            assert(has_point(s0, q));
            let k = choose|k: int| 0 <= k < s0.len() && (#[trigger] s0[k]).0 == q;
            assert(next.contains(s0[k]));
            let j = choose|j: int| 0 <= j < next.len() && next[j] == s0[k];
            assert(next[j].0 == q);
        } else {
            assert(born(snap, q));
            assert(cand.contains(q));
            let k = choose|k: int| 0 <= k < cand.len() && cand[k] == q;
            assert(has_point(next, cand[k]));
        }
    }
    assert(map_of(next) =~= next_cells(snap, gnew));
}

/// Adjacency runs both ways: every Moore neighbor of an alive cell that
/// sits clear of the coordinate limits has at least one alive neighbor of
/// its own, namely that cell.
proof fn lemma_neighbor_of_alive_has_live_neighbor(cells: Map<Point, u64>, p: Point, m: int)
    requires
        cells.dom().contains(p),
        tick_safe(p),
        0 <= m < 8,
    ensures
        neighbor_count(cells, spec_neighbors(p)[m]) > 0,
{
    reveal(crate::rule::neighbor_count);
    let q = spec_neighbors(p)[m];
    if m == 0 {
        assert(live_at(cells, q.x + 1, q.y - 1));
    } else if m == 1 {
        assert(live_at(cells, q.x as int, q.y - 1));
    } else if m == 2 {
        assert(live_at(cells, q.x - 1, q.y - 1));
    } else if m == 3 {
        assert(live_at(cells, q.x + 1, q.y as int));
    } else if m == 4 {
        assert(live_at(cells, q.x - 1, q.y as int));
    } else if m == 5 {
        assert(live_at(cells, q.x + 1, q.y + 1));
    } else if m == 6 {
        assert(live_at(cells, q.x as int, q.y + 1));
    } else {
        assert(live_at(cells, q.x - 1, q.y + 1));
    }
}

/// A dead point with at least one alive neighbor lies in the Moore
/// neighborhood of some alive cell.
proof fn lemma_live_neighbor_witness(cells: Map<Point, u64>, p: Point)
    requires
        neighbor_count(cells, p) > 0,
    ensures
        exists|c: Point| #[trigger] cells.dom().contains(c) && spec_neighbors(c).contains(p),
{
    reveal(crate::rule::neighbor_count);
    if live_at(cells, p.x - 1, p.y + 1) {
        let c = pt(p.x - 1, p.y + 1);
        assert(cells.dom().contains(c));
        assert(spec_neighbors(c)[7] == p);
        assert(spec_neighbors(c).contains(p));
    } else if live_at(cells, p.x as int, p.y + 1) {
        let c = pt(p.x as int, p.y + 1);
        assert(cells.dom().contains(c));
        assert(spec_neighbors(c)[6] == p);
        assert(spec_neighbors(c).contains(p));
    } else if live_at(cells, p.x + 1, p.y + 1) {
        let c = pt(p.x + 1, p.y + 1);
        assert(cells.dom().contains(c));
        assert(spec_neighbors(c)[5] == p);
        assert(spec_neighbors(c).contains(p));
    } else if live_at(cells, p.x - 1, p.y as int) {
        let c = pt(p.x - 1, p.y as int);
        assert(cells.dom().contains(c));
        assert(spec_neighbors(c)[4] == p);
        assert(spec_neighbors(c).contains(p));
    } else if live_at(cells, p.x + 1, p.y as int) {
        let c = pt(p.x + 1, p.y as int);
        assert(cells.dom().contains(c));
        assert(spec_neighbors(c)[3] == p);
        assert(spec_neighbors(c).contains(p));
    } else if live_at(cells, p.x - 1, p.y - 1) {
        let c = pt(p.x - 1, p.y - 1);
        assert(cells.dom().contains(c));
        assert(spec_neighbors(c)[2] == p);
        assert(spec_neighbors(c).contains(p));
    } else if live_at(cells, p.x as int, p.y - 1) {
        let c = pt(p.x as int, p.y - 1);
        assert(cells.dom().contains(c));
        assert(spec_neighbors(c)[1] == p);
        assert(spec_neighbors(c).contains(p));
    } else {
        assert(live_at(cells, p.x + 1, p.y - 1));
        let c = pt(p.x + 1, p.y - 1);
        assert(cells.dom().contains(c));
        assert(spec_neighbors(c)[0] == p);
        assert(spec_neighbors(c).contains(p));
    }
}

/// Appends `(p, b)` unless some entry already holds `p`.
fn push_entry_if_absent(v: &mut Vec<(Point, u64)>, p: Point, b: u64)
    requires
        entries_distinct(old(v)@),
    ensures
        entries_distinct(final(v)@),
        has_point(final(v)@, p),
        if has_point(old(v)@, p) {
            final(v)@ == old(v)@
        } else {
            final(v)@ == old(v)@.push((p, b))
        },
{
    if !vec_has_point(v, p) {
        let ghost prev = v@;
        v.push((p, b));
        proof {
            assert(v@[v@.len() - 1].0 == p);
            assert forall|i: int, j: int|
                0 <= i < j < v@.len() implies (#[trigger] v@[i]).0 != (#[trigger] v@[j]).0 by {
                if j == v@.len() - 1 {
                    assert(v@[i] == prev[i]);
                    assert(!has_point(prev, p));
                } else {
                    assert(v@[i] == prev[i]);
                    assert(v@[j] == prev[j]);
                }
            }
        }
    }
}

} // verus!
