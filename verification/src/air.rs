//! The air of a ship: it vents through the cells open to space, and flows out toward them,
//! pushing characters and items along as the pressure drops.
use crate::connectivity::{
    adjacent, lemma_closed_set_contains_reachable, lemma_reach_refl, lemma_reach_step, reachable,
};
use crate::game::Entity;
use crate::geometry::{
    cardinal_delta, cardinal_directions, coord_plus, is_cardinal_neighbour, lemma_cardinal_neighbours,
    opposite_of, CardinalDirection, Coord, Size,
};
use crate::grid::{
    count_true, index_of, lemma_count_true_bound, lemma_count_true_update, lemma_index_bounds,
    size_count, Grid,
};
use std::collections::VecDeque;
use vstd::prelude::*;

verus! {

/// The pressure of a cell full of air.
pub const MAX_AIR: u8 = 6;

/// What the air reads of a cell of the world: whether it has a floor, its feature if any
/// (`Some(true)` for a solid one), and the character and the item on it.
#[derive(Clone, Copy, Debug, PartialEq, Eq, Structural)]
pub struct AirCell {
    pub floor: bool,
    pub feature: Option<bool>,
    pub character: Option<Entity>,
    pub item: Option<Entity>,
}

/// The air of each cell: its pressure, and how far it is from where the air leaves.
pub struct Air {
    pub pressure: Grid<u8>,
    pub flow: Grid<Option<u32>>,
}

/// A cell without floor: the air leaves the ship there.
pub open spec fn is_source(w: Grid<AirCell>, c: Coord) -> bool {
    w.contains(c) && !w.at(c).floor
}

/// The cells that the air vents through: those without floor, and those whose feature is not
/// solid.
pub open spec fn vent_open(w: Grid<AirCell>) -> spec_fn(Coord) -> bool {
    |c: Coord| w.contains(c) && (!w.at(c).floor || w.at(c).feature == Some(false))
}

/// A path of venting cells, each sharing a side with the next, leads to `c` from a cell
/// without floor.
pub open spec fn vented(w: Grid<AirCell>, c: Coord) -> bool {
    exists|s: Coord| #[trigger] is_source(w, s) && reachable(vent_open(w), false, s, c)
}

/// Every cell of the grid that shares a side with `x` is marked.
pub open spec fn neighbours_seen(seen: Grid<bool>, x: Coord) -> bool {
    forall|m: Coord| #[trigger] is_cardinal_neighbour(x, m) && seen.contains(m) ==> seen.at(m)
}

impl Air {
    /// Full air everywhere, with no flow.
    pub fn new(size: Size) -> (a: Air)
        requires
            size.width <= i32::MAX,
            size.height <= i32::MAX,
            size_count(size) <= usize::MAX,
        ensures
            a.pressure.wf(),
            a.flow.wf(),
            a.pressure.spec_size() == size,
            a.flow.spec_size() == size,
            forall|c: Coord| #[trigger] a.pressure.contains(c) ==> a.pressure.at(c) == MAX_AIR,
            forall|c: Coord| #[trigger] a.flow.contains(c) ==> a.flow.at(c) is None,
    {
        Air { pressure: Grid::new_copy(size, MAX_AIR), flow: Grid::new_copy(size, None) }
    }

    /// Whether there is air at `coord`: a cell of the grid with some pressure.
    pub fn has_air(&self, coord: Coord) -> (b: bool)
        requires
            self.pressure.wf(),
        ensures
            b == (self.pressure.contains(coord) && self.pressure.at(coord) > 0),
    {
        match self.pressure.get(coord) {
            Some(cell) => *cell > 0,
            None => false,
        }
    }

    /// Whether air flows at `coord`: a cell of the grid some way from where the air leaves.
    pub fn has_flow(&self, coord: Coord) -> (b: bool)
        requires
            self.flow.wf(),
        ensures
            b == (self.flow.contains(coord) && (self.flow.at(coord) matches Some(f) && f > 0)),
    {
        match self.flow.get(coord) {
            Some(Some(f)) => *f > 0,
            _ => false,
        }
    }

    /// Empties of air every cell it vents through: the cells without floor and those reached
    /// from them through cells whose feature is not solid. Every other cell keeps its
    /// pressure, and the flow is unchanged.
    pub fn init(&mut self, world: &Grid<AirCell>)
        requires
            world.wf(),
            old(self).pressure.wf(),
            old(self).pressure.spec_size() == world.spec_size(),
        ensures
            final(self).pressure.wf(),
            final(self).pressure.spec_size() == world.spec_size(),
            final(self).flow == old(self).flow,
            forall|c: Coord|
                #[trigger] final(self).pressure.contains(c) ==> final(self).pressure.at(c) == if vented(*world, c) {
                    0u8
                } else {
                    old(self).pressure.at(c)
                },
    {
        let ghost p0 = self.pressure;
        let ghost open = vent_open(*world);
        let n = world.count();
        let size = world.size();
        let mut seen = Grid::new_copy(size, false);
        let mut queue: VecDeque<Coord> = VecDeque::new();
        let mut i: usize = 0;
        while i < n
            invariant
                world.wf(),
                seen.wf(),
                size == world.spec_size(),
                seen.spec_size() == size,
                n == size_count(size),
                i <= n,
                open == vent_open(*world),
                forall|c: Coord|
                    #[trigger] seen.contains(c) ==> seen.at(c) == (is_source(*world, c) && index_of(size, c) < i),
                queue@.no_duplicates(),
                forall|j: int| 0 <= j < queue@.len() ==> seen.contains(#[trigger] queue@[j]) && seen.at(queue@[j]),
                forall|c: Coord| #[trigger] seen.contains(c) && seen.at(c) ==> queue@.contains(c),
            decreases n - i,
        {
            let c = world.coord_of_index(i);
            let ghost s0 = seen;
            let ghost q0 = queue@;
            proof {
                assert(s0.contains(c));
                assert(!s0.at(c));
                assert(!q0.contains(c));
            }
            if !world.get_checked(c).floor {
                queue.push_back(c);
                seen.set(c, true);
                proof {
                    assert(queue@ == q0.push(c));
                    assert forall|a: int, b: int| 0 <= a < queue@.len() && 0 <= b < queue@.len() && a != b implies queue@[a]
                        != queue@[b] by {
                        if a == q0.len() {
                            assert(q0.contains(q0[b]));
                        } else if b == q0.len() {
                            assert(q0.contains(q0[a]));
                        }
                    }
                }
            }
            proof {
                assert forall|d: Coord| #[trigger] seen.contains(d) implies seen.at(d) == (is_source(*world, d)
                    && index_of(size, d) < i + 1) by {
                    assert(s0.contains(d));
                    lemma_index_bounds(size, d);
                    if d != c && index_of(size, d) == i {
                        crate::grid::lemma_index_injective(size, d, c);
                    }
                }
                assert forall|j: int| 0 <= j < queue@.len() implies seen.contains(#[trigger] queue@[j]) && seen.at(
                    queue@[j],
                ) by {
                    if j < q0.len() {
                        assert(queue@[j] == q0[j]);
                        assert(s0.at(q0[j]));
                    }
                }
                assert forall|d: Coord| #[trigger] seen.contains(d) && seen.at(d) implies queue@.contains(d) by {
                    if d == c {
                        assert(queue@[q0.len() as int] == c);
                    } else {
                        assert(s0.contains(d));
                        assert(s0.at(d));
                        assert(q0.contains(d));
                        let j = choose|j: int| 0 <= j < q0.len() && q0[j] == d;
                        assert(queue@[j] == d);
                    }
                }
            }
            i = i + 1;
        }
        proof {
            lemma_count_true_bound(seen.spec_cells());
            assert forall|c: Coord| #[trigger] seen.contains(c) && seen.at(c) && open(c) implies vented(*world, c) by {
                lemma_index_bounds(size, c);
                lemma_reach_refl(open, false, c);
                assert(is_source(*world, c));
            }
            assert forall|c: Coord| is_source(*world, c) implies #[trigger] seen.at(c) by {
                lemma_index_bounds(size, c);
                assert(seen.contains(c));
            }
            assert forall|c: Coord| #[trigger] self.pressure.contains(c) implies self.pressure.at(c) == if seen.at(c)
                && open(c) && !queue@.contains(c) {
                0u8
            } else {
                p0.at(c)
            } by {
                assert(seen.contains(c));
            }
        }
        let directions = CardinalDirection::all();
        while queue.len() > 0
            invariant
                world.wf(),
                seen.wf(),
                self.pressure.wf(),
                size == world.spec_size(),
                seen.spec_size() == size,
                self.pressure.spec_size() == size,
                self.flow == old(self).flow,
                p0 == old(self).pressure,
                n == size_count(size),
                open == vent_open(*world),
                directions@ == cardinal_directions(),
                count_true(seen.spec_cells()) <= n,
                queue@.no_duplicates(),
                forall|j: int| 0 <= j < queue@.len() ==> seen.contains(#[trigger] queue@[j]) && seen.at(queue@[j]) && open(queue@[j]),
                forall|c: Coord| is_source(*world, c) ==> #[trigger] seen.at(c),
                forall|c: Coord| #[trigger] seen.contains(c) && seen.at(c) && open(c) ==> vented(*world, c),
                forall|c: Coord|
                    #[trigger] self.pressure.contains(c) ==> self.pressure.at(c) == if seen.at(c) && open(c) && !queue@.contains(c) {
                        0u8
                    } else {
                        p0.at(c)
                    },
                forall|x: Coord|
                    #[trigger] seen.contains(x) && seen.at(x) && open(x) && !queue@.contains(x) ==> neighbours_seen(seen, x),
            decreases n - count_true(seen.spec_cells()), queue@.len(),
        {
            let ghost q0 = queue@;
            let cur = queue.pop_front().unwrap();
            let ghost q1 = queue@;
            let ghost seen_at_pop = seen;
            let ghost pr0 = self.pressure;
            proof {
                assert(cur == q0[0]);
                assert(q1 =~= q0.subrange(1, q0.len() as int));
                assert(!q1.contains(cur)) by {
                    if q1.contains(cur) {
                        let j = choose|j: int| 0 <= j < q1.len() && q1[j] == cur;
                        assert(q0[j + 1] == cur);
                    }
                }
                assert forall|c: Coord| q0.contains(c) && c != cur implies #[trigger] q1.contains(c) by {
                    let j = choose|j: int| 0 <= j < q0.len() && q0[j] == c;
                    assert(q1[j - 1] == c);
                }
                assert forall|c: Coord| #[trigger] q1.contains(c) implies q0.contains(c) by {
                    let j = choose|j: int| 0 <= j < q1.len() && q1[j] == c;
                    assert(q0[j + 1] == c);
                }
            }
            self.pressure.set(cur, 0);
            proof {
                assert forall|c: Coord| #[trigger] self.pressure.contains(c) implies self.pressure.at(c) == if seen.at(c)
                    && open(c) && !queue@.contains(c) {
                    0u8
                } else {
                    p0.at(c)
                } by {
                    assert(pr0.contains(c));
                    if c != cur {
                        assert(q1.contains(c) == q0.contains(c));
                    }
                }
            }
            let mut k: usize = 0;
            while k < 4
                invariant
                    world.wf(),
                    seen.wf(),
                    self.pressure.wf(),
                    size == world.spec_size(),
                    seen.spec_size() == size,
                    self.pressure.spec_size() == size,
                    self.flow == old(self).flow,
                    p0 == old(self).pressure,
                    n == size_count(size),
                    open == vent_open(*world),
                    directions@ == cardinal_directions(),
                    0 <= k <= 4,
                    seen.contains(cur),
                    seen.at(cur),
                    open(cur),
                    vented(*world, cur),
                    !queue@.contains(cur),
                    count_true(seen.spec_cells()) <= n,
                    count_true(seen.spec_cells()) >= count_true(seen_at_pop.spec_cells()),
                    count_true(seen.spec_cells()) == count_true(seen_at_pop.spec_cells()) ==> queue@ == q1,
                    queue@.no_duplicates(),
                    forall|j: int| 0 <= j < queue@.len() ==> seen.contains(#[trigger] queue@[j]) && seen.at(queue@[j]) && open(queue@[j]),
                    forall|c: Coord| is_source(*world, c) ==> #[trigger] seen.at(c),
                    forall|c: Coord| #[trigger] seen.contains(c) && seen.at(c) && open(c) ==> vented(*world, c),
                    forall|c: Coord|
                        #[trigger] self.pressure.contains(c) ==> self.pressure.at(c) == if seen.at(c) && open(c) && !queue@.contains(c) {
                            0u8
                        } else {
                            p0.at(c)
                        },
                    forall|x: Coord|
                        #[trigger] seen.contains(x) && seen.at(x) && open(x) && !queue@.contains(x) && x != cur
                            ==> neighbours_seen(seen, x),
                    forall|j: int|
                        0 <= j < k ==> {
                            let nb = #[trigger] coord_plus(cur, cardinal_delta(cardinal_directions()[j]));
                            seen.contains(nb) ==> seen.at(nb)
                        },
                decreases 4 - k,
            {
                let nb = cur.plus(directions[k].coord());
                let mut fresh = false;
                let mut vents = false;
                if let Some(cell) = world.get(nb) {
                    if !*seen.get_checked(nb) {
                        fresh = true;
                        if let Some(solid) = cell.feature {
                            if !solid {
                                vents = true;
                            }
                        }
                    }
                }
                if fresh {
                    let ghost before = seen;
                    let ghost qb = queue@;
                    let ghost pb = self.pressure;
                    proof {
                        lemma_index_bounds(size, nb);
                        lemma_count_true_update(seen.spec_cells(), index_of(size, nb));
                        assert(!is_source(*world, nb));
                        assert(!qb.contains(nb));
                        assert(open(nb) == vents);
                        if vents {
                            lemma_cardinal_neighbours(cur, nb);
                            let s = choose|s: Coord| #[trigger] is_source(*world, s) && reachable(open, false, s, cur);
                            lemma_reach_step(open, false, s, cur, nb);
                            assert(is_source(*world, s) && reachable(open, false, s, nb));
                        }
                    }
                    seen.set(nb, true);
                    if vents {
                        queue.push_back(nb);
                    }
                    proof {
                        lemma_count_true_bound(seen.spec_cells());
                        if vents {
                            assert(queue@ == qb.push(nb));
                            assert forall|a: int, b: int| 0 <= a < queue@.len() && 0 <= b < queue@.len() && a != b implies queue@[a]
                                != queue@[b] by {
                                if a == qb.len() {
                                    assert(qb.contains(qb[b]));
                                } else if b == qb.len() {
                                    assert(qb.contains(qb[a]));
                                }
                            }
                        }
                        assert forall|j: int| 0 <= j < queue@.len() implies seen.contains(#[trigger] queue@[j]) && seen.at(
                            queue@[j],
                        ) && open(queue@[j]) by {
                            if j < qb.len() {
                                assert(queue@[j] == qb[j]);
                                assert(before.contains(qb[j]) && before.at(qb[j]));
                            }
                        }
                        assert forall|c: Coord| is_source(*world, c) implies #[trigger] seen.at(c) by {
                            assert(before.at(c));
                            assert(before.contains(c));
                        }
                        assert forall|c: Coord| #[trigger] seen.contains(c) && seen.at(c) && open(c) implies vented(*world, c) by {
                            assert(before.contains(c));
                        }
                        assert forall|c: Coord| #[trigger] self.pressure.contains(c) implies self.pressure.at(c) == if seen.at(c)
                            && open(c) && !queue@.contains(c) {
                            0u8
                        } else {
                            p0.at(c)
                        } by {
                            assert(before.contains(c));
                            if c == nb {
                                if vents {
                                    assert(queue@[qb.len() as int] == nb);
                                }
                            } else {
                                if vents {
                                    assert(queue@.contains(c) == qb.contains(c)) by {
                                        if qb.contains(c) {
                                            let j = choose|j: int| 0 <= j < qb.len() && qb[j] == c;
                                            assert(queue@[j] == c);
                                        }
                                        if queue@.contains(c) {
                                            let j = choose|j: int| 0 <= j < queue@.len() && queue@[j] == c;
                                            assert(qb[j] == c);
                                        }
                                    }
                                }
                            }
                        }
                        assert forall|x: Coord|
                            #[trigger] seen.contains(x) && seen.at(x) && open(x) && !queue@.contains(x) && x != cur implies neighbours_seen(
                                seen,
                                x,
                            ) by {
                            assert(before.contains(x));
                            if x == nb {
                                assert(vents);
                                assert(queue@[qb.len() as int] == nb);
                            }
                            if qb.contains(x) {
                                let j = choose|j: int| 0 <= j < qb.len() && qb[j] == x;
                                assert(queue@[j] == x);
                            }
                            assert(neighbours_seen(before, x));
                            assert forall|m: Coord| #[trigger] is_cardinal_neighbour(x, m) && seen.contains(m) implies seen.at(m) by {
                                assert(before.contains(m));
                                assert(before.at(m));
                            }
                        }
                        assert forall|j: int| 0 <= j < k + 1 implies {
                            let nb2 = #[trigger] coord_plus(cur, cardinal_delta(cardinal_directions()[j]));
                            seen.contains(nb2) ==> seen.at(nb2)
                        } by {
                            let nb2 = coord_plus(cur, cardinal_delta(cardinal_directions()[j]));
                            if seen.contains(nb2) && j < k {
                                assert(before.contains(nb2));
                                assert(before.at(nb2));
                            }
                        }
                    }
                } else {
                    proof {
                        assert(nb == coord_plus(cur, cardinal_delta(cardinal_directions()[k as int])));
                    }
                }
                k = k + 1;
            }
            proof {
                assert forall|m: Coord| #[trigger] is_cardinal_neighbour(cur, m) && seen.contains(m) implies seen.at(m) by {
                    lemma_cardinal_neighbours(cur, m);
                    let j = choose|j: int| 0 <= j < 4 && m == #[trigger] coord_plus(cur, cardinal_delta(cardinal_directions()[j]));
                    assert(m == coord_plus(cur, cardinal_delta(cardinal_directions()[j])));
                }
                assert(neighbours_seen(seen, cur));
            }
        }
        proof {
            let set = |x: Coord| seen.contains(x) && seen.at(x) && open(x);
            assert forall|x: Coord, m: Coord| set(x) && open(m) && #[trigger] adjacent(false, x, m) implies set(m) by {
                assert(!queue@.contains(x));
                assert(neighbours_seen(seen, x));
                assert(seen.contains(m));
            }
            assert forall|c: Coord| #[trigger] self.pressure.contains(c) implies self.pressure.at(c) == if vented(*world, c) {
                0u8
            } else {
                p0.at(c)
            } by {
                assert(!queue@.contains(c));
                assert(seen.contains(c));
                if vented(*world, c) {
                    let s = choose|s: Coord| #[trigger] is_source(*world, s) && reachable(open, false, s, c);
                    assert(seen.at(s));
                    assert(seen.contains(s));
                    lemma_closed_set_contains_reachable(open, false, set, s, c);
                }
            }
        }
    }
}


/// The air may flow into `c`: a cell of the grid whose feature, if any, is not solid.
pub open spec fn passable(w: Grid<AirCell>, c: Coord) -> bool {
    w.contains(c) && w.at(c).feature != Some(true)
}

/// A walk of `k` steps, each into a passable cell sharing a side with the one before, leads to
/// `c` from a cell without floor.
pub open spec fn flow_in(w: Grid<AirCell>, c: Coord, k: nat) -> bool
    decreases k,
{
    if k == 0 {
        is_source(w, c)
    } else {
        passable(w, c) && exists|m: Coord| #[trigger] is_cardinal_neighbour(m, c) && flow_in(w, m, (k - 1) as nat)
    }
}

/// A walk of at most `k` steps leads to `c` from a cell without floor.
pub open spec fn flows_within(w: Grid<AirCell>, c: Coord, k: int) -> bool {
    exists|j: nat| j <= k && #[trigger] flow_in(w, c, j)
}

/// Some walk leads to `c` from a cell without floor.
pub open spec fn flows(w: Grid<AirCell>, c: Coord) -> bool {
    exists|j: nat| #[trigger] flow_in(w, c, j)
}

/// `f` holds at `c` the length of the shortest walk from a cell without floor, or `None`
/// when there is no walk.
pub open spec fn flow_distance_at(w: Grid<AirCell>, f: Grid<Option<u32>>, c: Coord) -> bool {
    match f.at(c) {
        Some(d) => flow_in(w, c, d as nat) && !flows_within(w, c, d - 1),
        None => !flows(w, c),
    }
}

/// The pressure at `c` after the air flows: full where no air flows, unchanged where it
/// leaves, and one less (down to zero) where it flows through.
pub open spec fn pressure_after(f: Grid<Option<u32>>, p0: Grid<u8>, c: Coord) -> u8 {
    match f.at(c) {
        None => MAX_AIR,
        Some(d) => if d == 0 {
            p0.at(c)
        } else if p0.at(c) > 0 {
            (p0.at(c) - 1) as u8
        } else {
            0u8
        },
    }
}

/// The air flowing through `c`, where it had pressure, pushes `e` (the character or the item
/// there) in the direction `dir`, toward a cell one step nearer to where the air leaves.
pub open spec fn pushes(w: Grid<AirCell>, f: Grid<Option<u32>>, p0: Grid<u8>, c: Coord, e: Entity, dir: CardinalDirection) -> bool {
    &&& f.contains(c)
    &&& (f.at(c) matches Some(d) && d > 0 && f.contains(coord_plus(c, cardinal_delta(dir))) && f.at(
        coord_plus(c, cardinal_delta(dir)),
    ) == Some((d - 1) as u32))
    &&& p0.at(c) > 0
    &&& (w.at(c).character == Some(e) || w.at(c).item == Some(e))
}

/// The number of cells of `s` that hold a value.
pub open spec fn count_some(s: Seq<Option<u32>>) -> nat
    decreases s.len(),
{
    if s.len() == 0 {
        0
    } else {
        count_some(s.drop_last()) + if s.last() is Some {
            1nat
        } else {
            0nat
        }
    }
}

proof fn lemma_count_some_bound(s: Seq<Option<u32>>)
    ensures
        count_some(s) <= s.len(),
    decreases s.len(),
{
    if s.len() > 0 {
        lemma_count_some_bound(s.drop_last());
    }
}

proof fn lemma_count_some_update(s: Seq<Option<u32>>, i: int, v: u32)
    requires
        0 <= i < s.len(),
        s[i] is None,
    ensures
        count_some(s.update(i, Some(v))) == count_some(s) + 1,
    decreases s.len(),
{
    let t = s.update(i, Some(v));
    if i < s.len() - 1 {
        assert(t.drop_last() =~= s.drop_last().update(i, Some(v)));
        lemma_count_some_update(s.drop_last(), i, v);
    } else {
        assert(t.drop_last() =~= s.drop_last());
    }
}

/// Once no cell waits, every cell that a walk of `k` steps reaches has a flow.
proof fn lemma_flow_complete(w: Grid<AirCell>, f: Grid<Option<u32>>, k: nat)
    requires
        f.spec_size() == w.spec_size(),
        forall|c: Coord| #[trigger] is_source(w, c) ==> f.at(c) is Some,
        forall|x: Coord|
            #[trigger] f.contains(x) && f.at(x) is Some ==> forall|m: Coord|
                #[trigger] is_cardinal_neighbour(x, m) && passable(w, m) ==> f.at(m) is Some,
    ensures
        forall|z: Coord| #[trigger] flow_in(w, z, k) ==> f.at(z) is Some,
    decreases k,
{
    if k > 0 {
        lemma_flow_complete(w, f, (k - 1) as nat);
        assert forall|z: Coord| #[trigger] flow_in(w, z, k) implies f.at(z) is Some by {
            let y = choose|y: Coord| #[trigger] is_cardinal_neighbour(y, z) && flow_in(w, y, (k - 1) as nat);
            assert(f.at(y) is Some);
            if k - 1 == 0 {
                assert(is_source(w, y));
            }
            assert(w.contains(y)) by {
                if k - 1 > 0 {
                    assert(passable(w, y));
                }
            }
            assert(f.contains(y));
        }
    }
}

proof fn lemma_opposite(c: Coord, d: CardinalDirection)
    requires
        0 <= c.x < i32::MAX,
        0 <= c.y < i32::MAX,
    ensures
        coord_plus(coord_plus(c, cardinal_delta(d)), cardinal_delta(opposite_of(d))) == c,
{
}

/// The cell `c` has a flow.
pub open spec fn assigned(f: Grid<Option<u32>>, c: Coord) -> bool {
    f.contains(c) && f.at(c) is Some
}

/// The flow of an assigned cell.
pub open spec fn flow_of(f: Grid<Option<u32>>, c: Coord) -> int {
    match f.at(c) {
        Some(d) => d as int,
        None => -1,
    }
}

/// The pressure at `c` while the air flows: one less (down to zero) where it already flows
/// through, unchanged elsewhere.
pub open spec fn pressure_during(f: Grid<Option<u32>>, p0: Grid<u8>, c: Coord) -> u8 {
    if f.at(c) matches Some(d) && d > 0 {
        if p0.at(c) > 0 {
            (p0.at(c) - 1) as u8
        } else {
            0u8
        }
    } else {
        p0.at(c)
    }
}

/// The entry `i` of `moves` is a push made by the air.
pub open spec fn sound_at(w: Grid<AirCell>, f: Grid<Option<u32>>, p0: Grid<u8>, moves: Seq<(Entity, CardinalDirection)>, i: int) -> bool {
    exists|c: Coord| #[trigger] pushes(w, f, p0, c, moves[i].0, moves[i].1)
}

/// Each entry of `moves` is a push made by the air.
pub open spec fn moves_sound(w: Grid<AirCell>, f: Grid<Option<u32>>, p0: Grid<u8>, moves: Seq<(Entity, CardinalDirection)>) -> bool {
    forall|i: int| 0 <= i < moves.len() ==> #[trigger] sound_at(w, f, p0, moves, i)
}

/// The character and the item of every cell that the air flows through, where it had
/// pressure, are pushed by an entry of `moves`.
pub open spec fn moves_complete(w: Grid<AirCell>, f: Grid<Option<u32>>, p0: Grid<u8>, moves: Seq<(Entity, CardinalDirection)>) -> bool {
    forall|c: Coord|
        #[trigger] f.contains(c) && (f.at(c) matches Some(d) && d > 0) && p0.at(c) > 0 ==> (w.at(c).character matches Some(e)
            ==> exists|i: int| 0 <= i < moves.len() && moves[i].0 == e && #[trigger] pushes(w, f, p0, c, e, moves[i].1))
            && (w.at(c).item matches Some(e) ==> exists|i: int| 0 <= i < moves.len() && moves[i].0 == e && #[trigger] pushes(w, f, p0, c, e, moves[i].1))
}

proof fn lemma_count_some_positive(s: Seq<Option<u32>>, i: int)
    requires
        0 <= i < s.len(),
        s[i] is Some,
    ensures
        count_some(s) > 0,
    decreases s.len(),
{
    if i < s.len() - 1 {
        lemma_count_some_positive(s.drop_last(), i);
    }
}

/// The pushes that the air makes when it flows into a cell holding `cell`, coming in the
/// direction `dir`, where the cell had pressure (`pressured`): the character, then the item,
/// each toward where the air came from.
pub open spec fn new_moves(cell: AirCell, dir: CardinalDirection, pressured: bool) -> Seq<(Entity, CardinalDirection)> {
    if pressured {
        (match cell.character {
            Some(ch) => seq![(ch, opposite_of(dir))],
            None => Seq::empty(),
        }) + (match cell.item {
            Some(it) => seq![(it, opposite_of(dir))],
            None => Seq::empty(),
        })
    } else {
        Seq::empty()
    }
}

proof fn lemma_mark_flow(
    w: Grid<AirCell>,
    f0: Grid<Option<u32>>,
    f1: Grid<Option<u32>>,
    p0: Grid<u8>,
    pr0: Grid<u8>,
    pr1: Grid<u8>,
    m0: Seq<(Entity, CardinalDirection)>,
    m1: Seq<(Entity, CardinalDirection)>,
    cur: Coord,
    nb: Coord,
    dir: CardinalDirection,
    lvl: int,
)
    requires
        w.wf(),
        f0.spec_size() == w.spec_size(),
        f1.spec_size() == w.spec_size(),
        pr0.spec_size() == w.spec_size(),
        pr1.spec_size() == w.spec_size(),
        0 <= lvl,
        lvl < count_some(f0.spec_cells()),
        count_some(f1.spec_cells()) == count_some(f0.spec_cells()) + 1,
        f0.contains(cur),
        f0.at(cur) == Some(lvl as u32),
        nb == coord_plus(cur, cardinal_delta(dir)),
        0 <= cur.x < i32::MAX,
        0 <= cur.y < i32::MAX,
        f0.contains(nb),
        f0.at(nb) is None,
        f1.at(nb) == Some((lvl + 1) as u32),
        lvl + 1 <= u32::MAX,
        forall|d: Coord| #![trigger f1.at(d)] f1.contains(d) && d != nb ==> f1.at(d) == f0.at(d),
        flow_in(w, nb, (lvl + 1) as nat),
        !flows_within(w, nb, lvl),
        !is_source(w, nb),
        pr1.at(nb) == if pr0.at(nb) > 0 {
            (pr0.at(nb) - 1) as u8
        } else {
            pr0.at(nb)
        },
        forall|d: Coord| #![trigger pr1.at(d)] pr1.contains(d) && d != nb ==> pr1.at(d) == pr0.at(d),
        m1 == m0 + new_moves(w.at(nb), dir, p0.at(nb) > 0),
        forall|c: Coord| #[trigger] is_source(w, c) ==> f0.at(c) == Some(0u32),
        forall|c: Coord|
            #[trigger] f0.contains(c) && f0.at(c) is Some ==> flow_in(w, c, flow_of(f0, c) as nat) && !flows_within(
                w,
                c,
                flow_of(f0, c) - 1,
            ) && flow_of(f0, c) < count_some(f0.spec_cells()),
        forall|c: Coord| #[trigger] pr0.contains(c) ==> pr0.at(c) == pressure_during(f0, p0, c),
        moves_sound(w, f0, p0, m0),
        moves_complete(w, f0, p0, m0),
    ensures
        forall|c: Coord| #[trigger] is_source(w, c) ==> f1.at(c) == Some(0u32),
        forall|c: Coord|
            #[trigger] f1.contains(c) && f1.at(c) is Some ==> flow_in(w, c, flow_of(f1, c) as nat) && !flows_within(
                w,
                c,
                flow_of(f1, c) - 1,
            ) && flow_of(f1, c) < count_some(f1.spec_cells()),
        forall|c: Coord| #[trigger] pr1.contains(c) ==> pr1.at(c) == pressure_during(f1, p0, c),
        moves_sound(w, f1, p0, m1),
        moves_complete(w, f1, p0, m1),
{
    assert forall|c: Coord| #[trigger] is_source(w, c) implies f1.at(c) == Some(0u32) by {
        assert(f1.contains(c));
    }
    assert forall|c: Coord|
        #[trigger] f1.contains(c) && f1.at(c) is Some implies flow_in(w, c, flow_of(f1, c) as nat) && !flows_within(
            w,
            c,
            flow_of(f1, c) - 1,
        ) && flow_of(f1, c) < count_some(f1.spec_cells()) by {
        if c != nb {
            assert(f0.contains(c));
        }
    }
    assert forall|c: Coord| #[trigger] pr1.contains(c) implies pr1.at(c) == pressure_during(f1, p0, c) by {
        assert(pr0.contains(c));
        assert(f1.contains(c));
        if c == nb {
            assert(pr0.at(nb) == p0.at(nb));
        }
    }
    let back = coord_plus(nb, cardinal_delta(opposite_of(dir)));
    lemma_opposite(cur, dir);
    assert(back == cur);
    assert(f1.at(cur) == Some(lvl as u32));
    assert forall|c: Coord, e: Entity, d: CardinalDirection| #[trigger] pushes(w, f0, p0, c, e, d) implies pushes(w, f1, p0, c, e, d) by {
        assert(f1.contains(c));
        let q = coord_plus(c, cardinal_delta(d));
        assert(f1.contains(q));
    }
    assert forall|i: int| 0 <= i < m1.len() implies #[trigger] sound_at(w, f1, p0, m1, i) by {
        if i < m0.len() {
            assert(m1[i] == m0[i]);
            assert(sound_at(w, f0, p0, m0, i));
            let c = choose|c: Coord| #[trigger] pushes(w, f0, p0, c, m0[i].0, m0[i].1);
            assert(pushes(w, f1, p0, c, m1[i].0, m1[i].1));
        } else {
            let nm = new_moves(w.at(nb), dir, p0.at(nb) > 0);
            let t = i - m0.len();
            assert(m1[i] == nm[t]);
            assert(p0.at(nb) > 0);
            match w.at(nb).character {
                Some(ch) => {
                    if t == 0 {
                        assert(nm[t] == (ch, opposite_of(dir)));
                    } else {
                        assert(nm[t] == (w.at(nb).item->0, opposite_of(dir)));
                    }
                },
                None => {
                    assert(nm[t] == (w.at(nb).item->0, opposite_of(dir)));
                },
            }
            assert(pushes(w, f1, p0, nb, m1[i].0, m1[i].1));
        }
    }
    assert forall|c: Coord|
        #[trigger] f1.contains(c) && (f1.at(c) matches Some(d) && d > 0) && p0.at(c) > 0 implies (w.at(c).character matches Some(e)
            ==> exists|i: int| 0 <= i < m1.len() && m1[i].0 == e && #[trigger] pushes(w, f1, p0, c, e, m1[i].1))
            && (w.at(c).item matches Some(e) ==> exists|i: int| 0 <= i < m1.len() && m1[i].0 == e && #[trigger] pushes(w, f1, p0, c, e, m1[i].1)) by {
        if c == nb {
            let nm = new_moves(w.at(nb), dir, true);
            if let Some(e) = w.at(c).character {
                assert(m1[m0.len() as int] == nm[0]);
                assert(pushes(w, f1, p0, c, e, m1[m0.len() as int].1));
            }
            if let Some(e) = w.at(c).item {
                let k = nm.len() - 1;
                assert(m1[m0.len() + k] == nm[k]);
                assert(pushes(w, f1, p0, c, e, m1[m0.len() + k].1));
            }
        } else {
            assert(f0.contains(c));
            if let Some(e) = w.at(c).character {
                let i = choose|i: int| 0 <= i < m0.len() && m0[i].0 == e && #[trigger] pushes(w, f0, p0, c, e, m0[i].1);
                assert(m1[i] == m0[i]);
                assert(pushes(w, f1, p0, c, e, m1[i].1));
            }
            if let Some(e) = w.at(c).item {
                let i = choose|i: int| 0 <= i < m0.len() && m0[i].0 == e && #[trigger] pushes(w, f0, p0, c, e, m0[i].1);
                assert(m1[i] == m0[i]);
                assert(pushes(w, f1, p0, c, e, m1[i].1));
            }
        }
    }
}

impl Air {
    /// Lets the air flow: every cell without floor gets flow 0 and a breadth-first search
    /// spreads from them through cells whose feature is not solid, each reached cell getting
    /// the length of its shortest walk from a cell without floor. Each reached cell (other
    /// than those without floor) loses one unit of pressure if it had any, and then its
    /// character and its item are pushed toward the cell it was reached from. Cells the air
    /// does not reach get full pressure and no flow.
    pub fn update(&mut self, world: &Grid<AirCell>) -> (to_move: Vec<(Entity, CardinalDirection)>)
        requires
            world.wf(),
            old(self).pressure.wf(),
            old(self).flow.wf(),
            old(self).pressure.spec_size() == world.spec_size(),
            old(self).flow.spec_size() == world.spec_size(),
            size_count(world.spec_size()) <= u32::MAX,
        ensures
            final(self).pressure.wf(),
            final(self).flow.wf(),
            final(self).pressure.spec_size() == world.spec_size(),
            final(self).flow.spec_size() == world.spec_size(),
            forall|c: Coord| #[trigger] final(self).flow.contains(c) ==> flow_distance_at(*world, final(self).flow, c),
            forall|c: Coord|
                #[trigger] final(self).pressure.contains(c) ==> final(self).pressure.at(c) == pressure_after(
                    final(self).flow,
                    old(self).pressure,
                    c,
                ),
            moves_sound(*world, final(self).flow, old(self).pressure, to_move@),
            moves_complete(*world, final(self).flow, old(self).pressure, to_move@),
    {
        let ghost p0 = self.pressure;
        let n = world.count();
        let size = world.size();
        let mut to_move: Vec<(Entity, CardinalDirection)> = Vec::new();
        let mut queue: VecDeque<Coord> = VecDeque::new();
        let mut i: usize = 0;
        while i < n
            invariant
                world.wf(),
                self.flow.wf(),
                self.pressure == p0,
                size == world.spec_size(),
                self.flow.spec_size() == size,
                n == size_count(size),
                i <= n,
                forall|c: Coord|
                    #[trigger] self.flow.contains(c) && index_of(size, c) < i ==> self.flow.at(c) == if is_source(*world, c) {
                        Some(0u32)
                    } else {
                        None
                    },
                forall|j: int|
                    0 <= j < queue@.len() ==> is_source(*world, #[trigger] queue@[j]) && index_of(size, queue@[j]) < i,
                forall|c: Coord| #[trigger] is_source(*world, c) && index_of(size, c) < i ==> queue@.contains(c),
            decreases n - i,
        {
            let c = world.coord_of_index(i);
            let ghost f0 = self.flow;
            let ghost q0 = queue@;
            if !world.get_checked(c).floor {
                self.flow.set(c, Some(0));
                queue.push_back(c);
            } else {
                self.flow.set(c, None);
            }
            proof {
                assert forall|d: Coord| #[trigger] self.flow.contains(d) && index_of(size, d) < i + 1 implies self.flow.at(d)
                    == if is_source(*world, d) {
                    Some(0u32)
                } else {
                    None
                } by {
                    assert(f0.contains(d));
                    lemma_index_bounds(size, d);
                    if d != c && index_of(size, d) == i {
                        crate::grid::lemma_index_injective(size, d, c);
                    }
                }
                assert forall|j: int| 0 <= j < queue@.len() implies is_source(*world, #[trigger] queue@[j]) && index_of(
                    size,
                    queue@[j],
                ) < i + 1 by {
                    if j < q0.len() {
                        assert(queue@[j] == q0[j]);
                    }
                }
                assert forall|d: Coord| #[trigger] is_source(*world, d) && index_of(size, d) < i + 1 implies queue@.contains(d) by {
                    lemma_index_bounds(size, d);
                    if index_of(size, d) == i {
                        crate::grid::lemma_index_injective(size, d, c);
                        assert(queue@[q0.len() as int] == c);
                    } else {
                        assert(q0.contains(d));
                        let j = choose|j: int| 0 <= j < q0.len() && q0[j] == d;
                        assert(queue@[j] == d);
                    }
                }
            }
            i = i + 1;
        }
        let directions = CardinalDirection::all();
        let ghost mut lvl: int = 0;
        proof {
            assert forall|c: Coord| #[trigger] self.flow.contains(c) implies self.flow.at(c) == if is_source(*world, c) {
                Some(0u32)
            } else {
                None
            } by {
                lemma_index_bounds(size, c);
            }
            let f = self.flow;
            lemma_count_some_bound(f.spec_cells());
            assert forall|c: Coord| #[trigger] f.contains(c) && f.at(c) is Some implies flow_in(*world, c, 0) && !flows_within(
                *world,
                c,
                -1,
            ) && 0 < count_some(f.spec_cells()) by {
                lemma_index_bounds(size, c);
                crate::grid::lemma_index_bounds(size, c);
                assert(f.spec_cells()[index_of(size, c)] is Some);
                lemma_count_some_positive(f.spec_cells(), index_of(size, c));
            }
            assert forall|j: int| 0 <= j < queue@.len() implies assigned(self.flow, #[trigger] queue@[j]) && flow_of(
                self.flow,
                queue@[j],
            ) == 0 by {
                assert(self.flow.contains(queue@[j]));
            }
            assert forall|z: Coord, k: nat| k <= lvl && #[trigger] flow_in(*world, z, k) implies assigned(self.flow, z) by {
                assert(k == 0);
                assert(self.flow.contains(z));
            }
            assert forall|x: Coord| #[trigger] assigned(self.flow, x) && !queue@.contains(x) implies false by {
                lemma_index_bounds(size, x);
            }
            assert forall|c: Coord| #[trigger] self.pressure.contains(c) implies self.pressure.at(c) == pressure_during(
                self.flow,
                p0,
                c,
            ) by {
                assert(self.flow.contains(c));
            }
            assert(to_move@ =~= Seq::<(Entity, CardinalDirection)>::empty());
            assert forall|c: Coord| #[trigger] is_source(*world, c) implies self.flow.at(c) == Some(0u32) by {
                assert(self.flow.contains(c));
            }
        }
        while queue.len() > 0
            invariant
                world.wf(),
                self.flow.wf(),
                self.pressure.wf(),
                size == world.spec_size(),
                self.flow.spec_size() == size,
                self.pressure.spec_size() == size,
                p0 == old(self).pressure,
                n == size_count(size),
                n <= u32::MAX,
                directions@ == cardinal_directions(),
                count_some(self.flow.spec_cells()) <= n,
                0 <= lvl,
                forall|c: Coord| #[trigger] is_source(*world, c) ==> self.flow.at(c) == Some(0u32),
                forall|c: Coord|
                    #[trigger] self.flow.contains(c) && self.flow.at(c) is Some ==> flow_in(*world, c, flow_of(self.flow, c) as nat)
                        && !flows_within(*world, c, flow_of(self.flow, c) - 1) && flow_of(self.flow, c) < count_some(
                        self.flow.spec_cells(),
                    ),
                forall|j: int|
                    0 <= j < queue@.len() ==> assigned(self.flow, #[trigger] queue@[j]) && lvl <= flow_of(self.flow, queue@[j])
                        <= lvl + 1,
                forall|a: int, b: int|
                    0 <= a < b < queue@.len() ==> flow_of(self.flow, #[trigger] queue@[a]) <= flow_of(
                        self.flow,
                        #[trigger] queue@[b],
                    ),
                forall|z: Coord, k: nat| k <= lvl && #[trigger] flow_in(*world, z, k) ==> assigned(self.flow, z),
                forall|x: Coord|
                    #[trigger] assigned(self.flow, x) && !queue@.contains(x) ==> forall|m: Coord|
                        #[trigger] is_cardinal_neighbour(x, m) && passable(*world, m) ==> assigned(self.flow, m),
                forall|c: Coord| #[trigger] self.pressure.contains(c) ==> self.pressure.at(c) == pressure_during(self.flow, p0, c),
                moves_sound(*world, self.flow, p0, to_move@),
                moves_complete(*world, self.flow, p0, to_move@),
            decreases n - count_some(self.flow.spec_cells()), queue@.len(),
        {
            let ghost q0 = queue@;
            let cur = queue.pop_front().unwrap();
            let ghost q1 = queue@;
            let ghost f_at_pop = self.flow;
            proof {
                assert(cur == q0[0]);
                assert(q1 =~= q0.subrange(1, q0.len() as int));
                assert(assigned(self.flow, cur));
                if flow_of(self.flow, cur) == lvl + 1 {
                    assert forall|z: Coord, k: nat| k <= lvl + 1 && #[trigger] flow_in(*world, z, k) implies assigned(self.flow, z) by {
                        if k == lvl + 1 {
                            let y = choose|y: Coord| #[trigger] is_cardinal_neighbour(y, z) && flow_in(*world, y, (k - 1) as nat);
                            assert(assigned(self.flow, y));
                            assert(self.flow.contains(y));
                            assert(!flows_within(*world, y, flow_of(self.flow, y) - 1));
                            assert(flow_of(self.flow, y) <= lvl);
                            if q0.contains(y) {
                                let j = choose|j: int| 0 <= j < q0.len() && q0[j] == y;
                                if j > 0 {
                                    assert(flow_of(self.flow, q0[0]) <= flow_of(self.flow, q0[j]));
                                }
                            }
                            assert(passable(*world, z));
                        }
                    }
                    lvl = lvl + 1;
                }
                assert forall|j: int| 0 <= j < q1.len() implies assigned(self.flow, #[trigger] q1[j]) && lvl <= flow_of(
                    self.flow,
                    q1[j],
                ) <= lvl + 1 by {
                    assert(q1[j] == q0[j + 1]);
                    assert(flow_of(self.flow, q0[0]) <= flow_of(self.flow, q0[j + 1]));
                }
                assert forall|a: int, b: int| 0 <= a < b < q1.len() implies flow_of(self.flow, #[trigger] q1[a]) <= flow_of(
                    self.flow,
                    #[trigger] q1[b],
                ) by {
                    assert(q1[a] == q0[a + 1]);
                    assert(q1[b] == q0[b + 1]);
                }
                assert forall|x: Coord|
                    #[trigger] assigned(self.flow, x) && !q1.contains(x) && x != cur implies forall|m: Coord|
                        #[trigger] is_cardinal_neighbour(x, m) && passable(*world, m) ==> assigned(self.flow, m) by {
                    if q0.contains(x) {
                        let j = choose|j: int| 0 <= j < q0.len() && q0[j] == x;
                        if j > 0 {
                            assert(q1[j - 1] == x);
                        }
                    }
                }
                assert(flow_of(self.flow, cur) == lvl);
            }
            let current_flow = self.flow.get_checked(cur).unwrap();
            let mut k: usize = 0;
            while k < 4
                invariant
                    world.wf(),
                    self.flow.wf(),
                    self.pressure.wf(),
                    size == world.spec_size(),
                    self.flow.spec_size() == size,
                    self.pressure.spec_size() == size,
                    p0 == old(self).pressure,
                    n == size_count(size),
                    n <= u32::MAX,
                    directions@ == cardinal_directions(),
                    count_some(self.flow.spec_cells()) <= n,
                    count_some(self.flow.spec_cells()) >= count_some(f_at_pop.spec_cells()),
                    count_some(self.flow.spec_cells()) == count_some(f_at_pop.spec_cells()) ==> queue@ == q1,
                    0 <= lvl,
                    0 <= k <= 4,
                    assigned(self.flow, cur),
                    current_flow == lvl,
                    flow_of(self.flow, cur) == lvl,
                    forall|c: Coord| #[trigger] is_source(*world, c) ==> self.flow.at(c) == Some(0u32),
                    forall|c: Coord|
                        #[trigger] self.flow.contains(c) && self.flow.at(c) is Some ==> flow_in(*world, c, flow_of(self.flow, c) as nat)
                            && !flows_within(*world, c, flow_of(self.flow, c) - 1) && flow_of(self.flow, c) < count_some(
                            self.flow.spec_cells(),
                        ),
                    forall|j: int|
                        0 <= j < queue@.len() ==> assigned(self.flow, #[trigger] queue@[j]) && lvl <= flow_of(self.flow, queue@[j])
                            <= lvl + 1,
                    forall|a: int, b: int|
                        0 <= a < b < queue@.len() ==> flow_of(self.flow, #[trigger] queue@[a]) <= flow_of(
                            self.flow,
                            #[trigger] queue@[b],
                        ),
                    forall|z: Coord, k: nat| k <= lvl && #[trigger] flow_in(*world, z, k) ==> assigned(self.flow, z),
                    forall|x: Coord|
                        #[trigger] assigned(self.flow, x) && !queue@.contains(x) && x != cur ==> forall|m: Coord|
                            #[trigger] is_cardinal_neighbour(x, m) && passable(*world, m) ==> assigned(self.flow, m),
                    forall|c: Coord| #[trigger] self.pressure.contains(c) ==> self.pressure.at(c) == pressure_during(self.flow, p0, c),
                    moves_sound(*world, self.flow, p0, to_move@),
                    moves_complete(*world, self.flow, p0, to_move@),
                    forall|j: int|
                        0 <= j < k ==> {
                            let nb = #[trigger] coord_plus(cur, cardinal_delta(cardinal_directions()[j]));
                            passable(*world, nb) ==> assigned(self.flow, nb)
                        },
                decreases 4 - k,
            {
                let dir = directions[k];
                let nb = cur.plus(dir.coord());
                if self.flow.is_valid(nb) {
                    if self.flow.get_checked(nb).is_none() {
                        let cell = *world.get_checked(nb);
                        let solid = match cell.feature {
                            Some(s) => s,
                            None => false,
                        };
                        if !solid {
                            let ghost f_before = self.flow;
                            let ghost pr_before = self.pressure;
                            let ghost m_before = to_move@;
                            let ghost qb = queue@;
                            proof {
                                lemma_index_bounds(size, nb);
                                lemma_count_some_update(self.flow.spec_cells(), index_of(size, nb), (current_flow + 1) as u32);
                                lemma_count_some_bound(self.flow.spec_cells().update(index_of(size, nb), Some((current_flow + 1) as u32)));
                                lemma_cardinal_neighbours(cur, nb);
                                assert(is_cardinal_neighbour(cur, nb));
                                assert(passable(*world, nb));
                                assert(flow_in(*world, nb, (lvl + 1) as nat));
                                if flows_within(*world, nb, lvl) {
                                    let j = choose|j: nat| j <= lvl && #[trigger] flow_in(*world, nb, j);
                                    assert(assigned(self.flow, nb));
                                }
                                assert(!is_source(*world, nb)) by {
                                    if is_source(*world, nb) {
                                        assert(flow_in(*world, nb, 0));
                                    }
                                }
                            }
                            self.flow.set(nb, Some(current_flow + 1));
                            let p = *self.pressure.get_checked(nb);
                            if p > 0 {
                                self.pressure.set(nb, p - 1);
                                if let Some(ch) = cell.character {
                                    to_move.push((ch, dir.opposite()));
                                }
                                if let Some(it) = cell.item {
                                    to_move.push((it, dir.opposite()));
                                }
                            }
                            queue.push_back(nb);
                            proof {
                                assert(pr_before.at(nb) == p0.at(nb)) by {
                                    assert(pr_before.contains(nb));
                                }
                                assert(to_move@ =~= m_before + new_moves(cell, dir, p0.at(nb) > 0));
                                lemma_mark_flow(*world, f_before, self.flow, p0, pr_before, self.pressure, m_before, to_move@, cur, nb, dir, lvl);
                                assert(queue@ == qb.push(nb));
                                assert forall|j: int| 0 <= j < queue@.len() implies assigned(self.flow, #[trigger] queue@[j]) && lvl
                                    <= flow_of(self.flow, queue@[j]) <= lvl + 1 by {
                                    if j < qb.len() {
                                        assert(queue@[j] == qb[j]);
                                        assert(assigned(f_before, qb[j]));
                                        assert(f_before.contains(qb[j]));
                                    }
                                }
                                assert forall|a: int, b: int| 0 <= a < b < queue@.len() implies flow_of(
                                    self.flow,
                                    #[trigger] queue@[a],
                                ) <= flow_of(self.flow, #[trigger] queue@[b]) by {
                                    assert(queue@[a] == qb[a]);
                                    assert(assigned(f_before, qb[a]));
                                    assert(f_before.contains(qb[a]));
                                    if b < qb.len() {
                                        assert(queue@[b] == qb[b]);
                                        assert(assigned(f_before, qb[b]));
                                        assert(f_before.contains(qb[b]));
                                    }
                                }
                                assert forall|x: Coord|
                                    #[trigger] assigned(self.flow, x) && !queue@.contains(x) && x != cur implies forall|m: Coord|
                                        #[trigger] is_cardinal_neighbour(x, m) && passable(*world, m) ==> assigned(self.flow, m) by {
                                    assert(queue@[qb.len() as int] == nb);
                                    assert(f_before.contains(x));
                                    assert(x != nb);
                                    if qb.contains(x) {
                                        let j = choose|j: int| 0 <= j < qb.len() && qb[j] == x;
                                        assert(queue@[j] == x);
                                    }
                                    assert(assigned(f_before, x));
                                    assert forall|m: Coord| #[trigger] is_cardinal_neighbour(x, m) && passable(*world, m) implies assigned(
                                        self.flow,
                                        m,
                                    ) by {
                                        assert(assigned(f_before, m));
                                        assert(f_before.contains(m));
                                    }
                                }
                                assert forall|j: int| 0 <= j < k + 1 implies {
                                    let nb2 = #[trigger] coord_plus(cur, cardinal_delta(cardinal_directions()[j]));
                                    passable(*world, nb2) ==> assigned(self.flow, nb2)
                                } by {
                                    let nb2 = coord_plus(cur, cardinal_delta(cardinal_directions()[j]));
                                    if passable(*world, nb2) && j < k {
                                        assert(assigned(f_before, nb2));
                                        assert(f_before.contains(nb2));
                                    }
                                }
                                assert forall|z: Coord, j: nat| j <= lvl && #[trigger] flow_in(*world, z, j) implies assigned(
                                    self.flow,
                                    z,
                                ) by {
                                    assert(assigned(f_before, z));
                                    assert(f_before.contains(z));
                                }
                            }
                        } else {
                            proof {
                                assert(!passable(*world, nb));
                            }
                        }
                    } else {
                        proof {
                            assert(assigned(self.flow, nb));
                        }
                    }
                } else {
                    proof {
                        assert(!passable(*world, nb));
                    }
                }
                proof {
                    assert(nb == coord_plus(cur, cardinal_delta(cardinal_directions()[k as int])));
                }
                k = k + 1;
            }
            proof {
                assert forall|m: Coord| #[trigger] is_cardinal_neighbour(cur, m) && passable(*world, m) implies assigned(
                    self.flow,
                    m,
                ) by {
                    lemma_cardinal_neighbours(cur, m);
                    let j = choose|j: int| 0 <= j < 4 && m == #[trigger] coord_plus(cur, cardinal_delta(cardinal_directions()[j]));
                    assert(m == coord_plus(cur, cardinal_delta(cardinal_directions()[j])));
                }
            }
        }
        let ghost f_final = self.flow;
        proof {
            assert forall|c: Coord| #[trigger] is_source(*world, c) implies self.flow.at(c) is Some by {
                assert(self.flow.at(c) == Some(0u32));
            }
            assert forall|x: Coord|
                #[trigger] self.flow.contains(x) && self.flow.at(x) is Some implies forall|m: Coord|
                    #[trigger] is_cardinal_neighbour(x, m) && passable(*world, m) ==> self.flow.at(m) is Some by {
                assert(assigned(self.flow, x));
                assert(!queue@.contains(x));
                assert forall|m: Coord| #[trigger] is_cardinal_neighbour(x, m) && passable(*world, m) implies self.flow.at(m) is Some by {
                    assert(assigned(self.flow, m));
                }
            }
            assert forall|c: Coord| #[trigger] self.flow.contains(c) implies flow_distance_at(*world, self.flow, c) by {
                if self.flow.at(c) is None {
                    if flows(*world, c) {
                        let j = choose|j: nat| #[trigger] flow_in(*world, c, j);
                        lemma_flow_complete(*world, self.flow, j);
                    }
                }
            }
        }
        let mut i: usize = 0;
        while i < n
            invariant
                world.wf(),
                self.flow.wf(),
                self.pressure.wf(),
                self.flow == f_final,
                size == world.spec_size(),
                self.flow.spec_size() == size,
                self.pressure.spec_size() == size,
                n == size_count(size),
                i <= n,
                forall|c: Coord|
                    #[trigger] self.pressure.contains(c) ==> self.pressure.at(c) == if index_of(size, c) < i {
                        pressure_after(self.flow, p0, c)
                    } else {
                        pressure_during(self.flow, p0, c)
                    },
            decreases n - i,
        {
            let c = world.coord_of_index(i);
            let ghost pb = self.pressure;
            if self.flow.get_checked(c).is_none() {
                self.pressure.set(c, MAX_AIR);
            }
            proof {
                assert forall|d: Coord| #[trigger] self.pressure.contains(d) implies self.pressure.at(d) == if index_of(size, d)
                    < i + 1 {
                    pressure_after(self.flow, p0, d)
                } else {
                    pressure_during(self.flow, p0, d)
                } by {
                    assert(pb.contains(d));
                    lemma_index_bounds(size, d);
                    if d != c && index_of(size, d) == i {
                        crate::grid::lemma_index_injective(size, d, c);
                    }
                }
            }
            i = i + 1;
        }
        proof {
            assert forall|c: Coord| #[trigger] self.pressure.contains(c) implies self.pressure.at(c) == pressure_after(
                self.flow,
                p0,
                c,
            ) by {
                lemma_index_bounds(size, c);
            }
        }
        to_move
    }
}

} // verus!
