//! The second world grid, of land and water, and the distance of each land cell from the
//! nearest shore.
use crate::geometry::{
    all_directions, coord_plus, direction_delta, is_neighbour, lemma_neighbours, Coord, Direction,
};
use crate::grid::{
    count_true, index_of, lemma_count_true_bound, lemma_count_true_update, lemma_index_bounds,
    size_count, Grid,
};
use std::collections::VecDeque;
use vstd::prelude::*;

verus! {

/// The kind of a water cell.
#[derive(Clone, Copy, Debug, PartialEq, Eq, Structural)]
pub enum WaterType {
    Ocean,
    River,
}

/// A cell of the second world grid.
#[derive(Clone, Copy, Debug, PartialEq, Eq, Structural)]
pub enum WorldCell2 {
    Water(WaterType),
    Land,
}

/// `c` is a water cell of the grid.
pub open spec fn is_water(g: Grid<WorldCell2>, c: Coord) -> bool {
    g.contains(c) && g.at(c) is Water
}

/// `c` is a land cell of the grid.
pub open spec fn is_land(g: Grid<WorldCell2>, c: Coord) -> bool {
    g.contains(c) && g.at(c) == WorldCell2::Land
}

/// `c` is a water cell with at least one of its eight neighbours not water (land, or outside
/// the grid).
pub open spec fn is_shore(g: Grid<WorldCell2>, c: Coord) -> bool {
    is_water(g, c) && exists|n: Coord| #[trigger] is_neighbour(c, n) && !is_water(g, n)
}

/// A walk of `k` steps between neighbouring cells (diagonals included) leads from a shore cell
/// to `c` through land cells only.
pub open spec fn reach_in(g: Grid<WorldCell2>, c: Coord, k: nat) -> bool
    decreases k,
{
    if k == 0 {
        is_shore(g, c)
    } else {
        is_land(g, c) && exists|n: Coord| #[trigger] is_neighbour(n, c) && reach_in(g, n, (k - 1) as nat)
    }
}

/// A walk of at most `k` steps leads from a shore cell to `c` through land.
pub open spec fn within(g: Grid<WorldCell2>, c: Coord, k: int) -> bool {
    exists|j: nat| j <= k && #[trigger] reach_in(g, c, j)
}

/// `d` holds the right distance at `c`: 0 on water; on land the length of the shortest walk
/// from a shore when that is below 30, and `u32::MAX` otherwise.
pub open spec fn water_distance_at(g: Grid<WorldCell2>, d: Grid<u32>, c: Coord) -> bool {
    if is_water(g, c) {
        d.at(c) == 0
    } else if within(g, c, 29) {
        &&& d.at(c) < 30
        &&& reach_in(g, c, d.at(c) as nat)
        &&& !within(g, c, d.at(c) - 1)
    } else {
        d.at(c) == u32::MAX
    }
}

/// Every land cell next to `x` (diagonals included) is marked.
pub open spec fn closed_at(g: Grid<WorldCell2>, seen: Grid<bool>, x: Coord) -> bool {
    forall|m: Coord| is_land(g, m) && #[trigger] is_neighbour(x, m) ==> seen.at(m)
}

/// For each cell of the second world grid, how far it is from the shore.
pub struct WaterDistanceMap {
    pub distances: Grid<u32>,
}

/// True iff one of the eight neighbours of `coord` is not a water cell of the grid.
fn has_dry_neighbour(grid: &Grid<WorldCell2>, coord: Coord) -> (b: bool)
    requires
        grid.wf(),
        grid.contains(coord),
    ensures
        b == exists|n: Coord| #[trigger] is_neighbour(coord, n) && !is_water(*grid, n),
{
    let directions = Direction::all();
    let mut k: usize = 0;
    let mut found = false;
    while k < 8
        invariant
            grid.wf(),
            grid.contains(coord),
            directions@ == all_directions(),
            k <= 8,
            found == exists|i: int|
                0 <= i < k && !is_water(
                    *grid,
                    #[trigger] coord_plus(coord, direction_delta(all_directions()[i])),
                ),
        decreases 8 - k,
    {
        let n = coord.plus(directions[k].coord());
        match grid.get(n) {
            Some(cell) => {
                if let WorldCell2::Land = *cell {
                    found = true;
                }
            },
            None => {
                found = true;
            },
        }
        k = k + 1;
    }
    proof {
        if found {
            let i = choose|i: int|
                0 <= i < 8 && !is_water(
                    *grid,
                    #[trigger] coord_plus(coord, direction_delta(all_directions()[i])),
                );
            let n = coord_plus(coord, direction_delta(all_directions()[i]));
            lemma_neighbours(coord, n);
            assert(is_neighbour(coord, n));
        }
        if exists|n: Coord| #[trigger] is_neighbour(coord, n) && !is_water(*grid, n) {
            let n = choose|n: Coord| #[trigger] is_neighbour(coord, n) && !is_water(*grid, n);
            lemma_neighbours(coord, n);
        }
    }
    found
}

/// Once no cell waits in the queue, every cell within `k` steps of the shore (`k` below 30) is
/// marked with a finite distance.
proof fn lemma_search_complete(g: Grid<WorldCell2>, seen: Grid<bool>, d: Grid<u32>, k: nat)
    requires
        seen.spec_size() == g.spec_size(),
        d.spec_size() == g.spec_size(),
        k < 30,
        forall|c: Coord| #[trigger] seen.contains(c) && is_shore(g, c) ==> seen.at(c),
        forall|c: Coord|
            #[trigger] seen.contains(c) && seen.at(c) && d.at(c) != u32::MAX ==> d.at(c) < 30
                && reach_in(g, c, d.at(c) as nat) && !within(g, c, d.at(c) - 1),
        forall|c: Coord|
            #[trigger] seen.contains(c) && seen.at(c) && d.at(c) == u32::MAX ==> reach_in(g, c, 30)
                && !within(g, c, 29),
        forall|x: Coord|
            #[trigger] seen.contains(x) && seen.at(x) && d.at(x) != u32::MAX ==> closed_at(g, seen, x),
    ensures
        forall|z: Coord| #[trigger] reach_in(g, z, k) ==> seen.at(z) && d.at(z) != u32::MAX,
    decreases k,
{
    if k > 0 {
        lemma_search_complete(g, seen, d, (k - 1) as nat);
        assert forall|z: Coord| #[trigger] reach_in(g, z, k) implies seen.at(z) && d.at(z) != u32::MAX by {
            let y = choose|y: Coord| #[trigger] is_neighbour(y, z) && reach_in(g, y, (k - 1) as nat);
            assert(seen.at(y) && d.at(y) != u32::MAX);
            assert(seen.contains(y));
            assert(closed_at(g, seen, y));
            assert(is_land(g, z));
            assert(seen.at(z));
            assert(seen.contains(z));
            if d.at(z) == u32::MAX {
                assert(within(g, z, 29));
            }
        }
    } else {
        assert forall|z: Coord| #[trigger] reach_in(g, z, k) implies seen.at(z) && d.at(z) != u32::MAX by {
            assert(is_shore(g, z));
            assert(seen.contains(z));
            if d.at(z) == u32::MAX {
                assert(within(g, z, 29));
            }
        }
    }
}

impl WaterDistanceMap {
    /// Each land cell's distance from the nearest shore water: the water cells that touch land
    /// or the edge of the grid are the shore, and a breadth-first search spreads over land in
    /// all eight directions. Water is 0; land 30 or more steps away, or out of reach, is
    /// `u32::MAX`.
    pub fn new(world2: &Grid<WorldCell2>) -> (m: Self)
        requires
            world2.wf(),
        ensures
            m.distances.wf(),
            m.distances.spec_size() == world2.spec_size(),
            forall|c: Coord| #[trigger] m.distances.contains(c) ==> water_distance_at(*world2, m.distances, c),
    {
        let max_distance: u32 = 30;
        let n = world2.count();
        let size = world2.size();
        let mut distances = Grid::new_copy(size, 0u32);
        let mut seen = Grid::new_copy(size, false);
        let mut to_visit: VecDeque<Coord> = VecDeque::new();
        let mut i: usize = 0;
        while i < n
            invariant
                world2.wf(),
                distances.wf(),
                seen.wf(),
                size == world2.spec_size(),
                distances.spec_size() == size,
                seen.spec_size() == size,
                n == size_count(size),
                i <= n,
                forall|c: Coord|
                    #[trigger] distances.contains(c) ==> distances.at(c) == if is_land(*world2, c)
                        && index_of(size, c) < i {
                        u32::MAX
                    } else {
                        0u32
                    },
                forall|c: Coord|
                    #[trigger] seen.contains(c) ==> (seen.at(c) == (is_shore(*world2, c) && index_of(size, c) < i)),
                forall|k: int|
                    0 <= k < to_visit@.len() ==> {
                        let x = #[trigger] to_visit@[k];
                        seen.contains(x) && seen.at(x)
                    },
                forall|c: Coord| #[trigger] seen.contains(c) && seen.at(c) ==> to_visit@.contains(c),
            decreases n - i,
        {
            let coord = world2.coord_of_index(i);
            let ghost d0 = distances;
            let ghost s0 = seen;
            let ghost q0 = to_visit@;
            match *world2.get_checked(coord) {
                WorldCell2::Water(_) => {
                    if has_dry_neighbour(world2, coord) {
                        seen.set(coord, true);
                        to_visit.push_front(coord);
                    }
                },
                WorldCell2::Land => {
                    distances.set(coord, u32::MAX);
                },
            }
            proof {
                assert forall|c: Coord| #[trigger] distances.contains(c) implies distances.at(c) == if is_land(*world2, c)
                    && index_of(size, c) < i + 1 {
                    u32::MAX
                } else {
                    0u32
                } by {
                    assert(d0.contains(c));
                    lemma_index_bounds(size, c);
                    if c != coord {
                        assert(distances.at(c) == d0.at(c));
                        if index_of(size, c) == i {
                            crate::grid::lemma_index_injective(size, c, coord);
                        }
                    }
                }
                assert forall|c: Coord| #[trigger] seen.contains(c) implies (seen.at(c) == (is_shore(*world2, c)
                    && index_of(size, c) < i + 1)) by {
                    assert(s0.contains(c));
                    lemma_index_bounds(size, c);
                    if c != coord {
                        assert(seen.at(c) == s0.at(c));
                        if index_of(size, c) == i {
                            crate::grid::lemma_index_injective(size, c, coord);
                        }
                    }
                }
                assert forall|k: int| 0 <= k < to_visit@.len() implies {
                    let x = #[trigger] to_visit@[k];
                    seen.contains(x) && seen.at(x)
                } by {
                    if to_visit@ != q0 {
                        if k > 0 {
                            let x = q0[k - 1];
                            assert(to_visit@[k] == x);
                            assert(s0.contains(x) && s0.at(x));
                            if x != coord {
                                assert(seen.at(x) == s0.at(x));
                            }
                        } else {
                            assert(to_visit@[0] == coord);
                        }
                    } else {
                        let x = q0[k];
                        assert(s0.contains(x) && s0.at(x));
                        if x != coord {
                            assert(seen.at(x) == s0.at(x));
                        }
                    }
                }
                assert forall|c: Coord| #[trigger] seen.contains(c) && seen.at(c) implies to_visit@.contains(c) by {
                    assert(s0.contains(c));
                    if to_visit@ != q0 {
                        assert(to_visit@[0] == coord);
                        if c != coord {
                            assert(s0.at(c));
                            let j = choose|j: int| 0 <= j < q0.len() && q0[j] == c;
                            assert(to_visit@[j + 1] == c);
                        }
                    } else {
                        if c == coord {
                            assert(seen.at(c) == (is_shore(*world2, c) && index_of(size, c) < i + 1));
                            assert(!is_shore(*world2, c));
                        }
                        assert(s0.at(c));
                    }
                }
            }
            i = i + 1;
        }
        let directions = Direction::all();
        let ghost mut lvl: int = 0;
        proof {
            lemma_count_true_bound(seen.spec_cells());
            assert forall|c: Coord|
                #[trigger] seen.contains(c) && !seen.at(c) && is_land(*world2, c) implies distances.at(c) == u32::MAX by {
                lemma_index_bounds(size, c);
                assert(distances.contains(c));
            }
            assert forall|c: Coord| #[trigger] seen.contains(c) && is_shore(*world2, c) implies seen.at(c) by {
                lemma_index_bounds(size, c);
            }
            assert forall|c: Coord|
                #[trigger] seen.contains(c) && seen.at(c) && distances.at(c) == u32::MAX implies reach_in(*world2, c, 30)
                    && !within(*world2, c, 29) by {
                assert(distances.contains(c));
                assert(is_shore(*world2, c));
            }
            assert forall|k: int| 0 <= k < to_visit@.len() implies {
                let x = #[trigger] to_visit@[k];
                &&& seen.contains(x)
                &&& seen.at(x)
                &&& lvl <= distances.at(x) <= lvl + 1
            } by {
                let x = to_visit@[k];
                assert(distances.contains(x));
                assert(is_shore(*world2, x));
            }
            assert forall|c: Coord|
                #[trigger] seen.contains(c) && seen.at(c) && distances.at(c) != u32::MAX implies distances.at(c) < 30
                    && reach_in(*world2, c, distances.at(c) as nat) && !within(*world2, c, distances.at(c) - 1) by {
                lemma_index_bounds(size, c);
                assert(distances.contains(c));
                assert(is_shore(*world2, c));
                assert(!is_land(*world2, c));
                assert(distances.at(c) == 0);
                assert(reach_in(*world2, c, 0));
            }
            assert forall|z: Coord, k: nat| k <= lvl && #[trigger] reach_in(*world2, z, k) implies seen.contains(z)
                && seen.at(z) by {
                assert(k == 0);
                assert(is_shore(*world2, z));
                assert(seen.contains(z));
                lemma_index_bounds(size, z);
            }
        }
        while to_visit.len() > 0
            invariant
                world2.wf(),
                distances.wf(),
                seen.wf(),
                size == world2.spec_size(),
                distances.spec_size() == size,
                seen.spec_size() == size,
                n == size_count(size),
                max_distance == 30,
                directions@ == all_directions(),
                count_true(seen.spec_cells()) <= n,
                0 <= lvl < 30,
                forall|c: Coord| #[trigger] distances.contains(c) && is_water(*world2, c) ==> distances.at(c) == 0,
                forall|c: Coord|
                    #[trigger] seen.contains(c) && !seen.at(c) && is_land(*world2, c) ==> distances.at(c) == u32::MAX,
                forall|c: Coord|
                    #[trigger] seen.contains(c) && seen.at(c) ==> is_shore(*world2, c) || is_land(*world2, c),
                forall|c: Coord| #[trigger] seen.contains(c) && is_shore(*world2, c) ==> seen.at(c),
                forall|c: Coord|
                    #[trigger] seen.contains(c) && seen.at(c) && distances.at(c) != u32::MAX ==> distances.at(c) < 30
                        && reach_in(*world2, c, distances.at(c) as nat) && !within(*world2, c, distances.at(c) - 1),
                forall|c: Coord|
                    #[trigger] seen.contains(c) && seen.at(c) && distances.at(c) == u32::MAX ==> reach_in(*world2, c, 30)
                        && !within(*world2, c, 29),
                forall|k: int|
                    0 <= k < to_visit@.len() ==> {
                        let x = #[trigger] to_visit@[k];
                        &&& seen.contains(x)
                        &&& seen.at(x)
                        &&& lvl <= distances.at(x) <= lvl + 1
                    },
                forall|k: int, j: int|
                    0 <= k < j < to_visit@.len() ==> distances.at(#[trigger] to_visit@[j]) <= distances.at(
                        #[trigger] to_visit@[k],
                    ),
                forall|z: Coord, k: nat| k <= lvl && #[trigger] reach_in(*world2, z, k) ==> seen.contains(z) && seen.at(z),
                forall|x: Coord|
                    #[trigger] seen.contains(x) && seen.at(x) && distances.at(x) != u32::MAX && !to_visit@.contains(x)
                        ==> closed_at(*world2, seen, x),
            decreases n - count_true(seen.spec_cells()), to_visit@.len(),
        {
            let ghost q0 = to_visit@;
            let cur = to_visit.pop_back().unwrap();
            let ghost q_after_pop = to_visit@;
            let ghost seen_at_pop = seen;
            proof {
                let last = q0.len() - 1;
                assert(cur == q0[last]);
                assert(seen.contains(cur) && seen.at(cur));
                if distances.at(cur) == lvl + 1 {
                    assert forall|z: Coord, k: nat| k <= lvl + 1 && #[trigger] reach_in(*world2, z, k) implies seen.contains(z)
                        && seen.at(z) by {
                        if k == lvl + 1 {
                            let y = choose|y: Coord| #[trigger] is_neighbour(y, z) && reach_in(*world2, y, (k - 1) as nat);
                            assert(seen.contains(y) && seen.at(y));
                            if distances.at(y) == u32::MAX {
                                assert(within(*world2, y, 29));
                            }
                            assert(!within(*world2, y, distances.at(y) - 1));
                            assert(distances.at(y) <= lvl);
                            if q0.contains(y) {
                                let j = choose|j: int| 0 <= j < q0.len() && q0[j] == y;
                                assert(j != last);
                                assert(distances.at(q0[last]) <= distances.at(q0[j]));
                            }
                            assert(closed_at(*world2, seen, y));
                            assert(is_land(*world2, z));
                            assert(seen.contains(z));
                        }
                    }
                    lvl = lvl + 1;
                }
                assert forall|k: int| 0 <= k < to_visit@.len() implies {
                    let x = #[trigger] to_visit@[k];
                    &&& seen.contains(x)
                    &&& seen.at(x)
                    &&& lvl <= distances.at(x) <= lvl + 1
                } by {
                    assert(to_visit@[k] == q0[k]);
                    assert(distances.at(q0[last]) <= distances.at(q0[k]));
                }
                assert forall|k: int, j: int| 0 <= k < j < to_visit@.len() implies distances.at(
                    #[trigger] to_visit@[j],
                ) <= distances.at(#[trigger] to_visit@[k]) by {
                    assert(to_visit@[k] == q0[k]);
                    assert(to_visit@[j] == q0[j]);
                }
                assert forall|x: Coord|
                    #[trigger] seen.contains(x) && seen.at(x) && distances.at(x) != u32::MAX && !to_visit@.contains(x)
                        && x != cur implies closed_at(*world2, seen, x) by {
                    if q0.contains(x) {
                        let j = choose|j: int| 0 <= j < q0.len() && q0[j] == x;
                        if j < last {
                            assert(to_visit@[j] == x);
                        }
                    }
                }
                assert(distances.at(cur) == lvl);
                assert(reach_in(*world2, cur, lvl as nat));
            }
            let cur_distance = *distances.get_checked(cur);
            let mut k: usize = 0;
            while k < 8
                invariant
                    world2.wf(),
                    distances.wf(),
                    seen.wf(),
                    size == world2.spec_size(),
                    distances.spec_size() == size,
                    seen.spec_size() == size,
                    n == size_count(size),
                    max_distance == 30,
                    directions@ == all_directions(),
                    count_true(seen.spec_cells()) <= n,
                    count_true(seen.spec_cells()) >= count_true(seen_at_pop.spec_cells()),
                    count_true(seen.spec_cells()) == count_true(seen_at_pop.spec_cells()) ==> to_visit@
                        == q_after_pop,
                    0 <= lvl < 30,
                    0 <= k <= 8,
                    seen.contains(cur),
                    seen.at(cur),
                    cur_distance == distances.at(cur),
                    cur_distance == lvl,
                    reach_in(*world2, cur, lvl as nat),
                    forall|c: Coord| #[trigger] distances.contains(c) && is_water(*world2, c) ==> distances.at(c) == 0,
                    forall|c: Coord|
                        #[trigger] seen.contains(c) && !seen.at(c) && is_land(*world2, c) ==> distances.at(c)
                            == u32::MAX,
                    forall|c: Coord|
                        #[trigger] seen.contains(c) && seen.at(c) ==> is_shore(*world2, c) || is_land(*world2, c),
                    forall|c: Coord| #[trigger] seen.contains(c) && is_shore(*world2, c) ==> seen.at(c),
                    forall|c: Coord|
                        #[trigger] seen.contains(c) && seen.at(c) && distances.at(c) != u32::MAX ==> distances.at(c)
                            < 30 && reach_in(*world2, c, distances.at(c) as nat) && !within(
                            *world2,
                            c,
                            distances.at(c) - 1,
                        ),
                    forall|c: Coord|
                        #[trigger] seen.contains(c) && seen.at(c) && distances.at(c) == u32::MAX ==> reach_in(
                            *world2,
                            c,
                            30,
                        ) && !within(*world2, c, 29),
                    forall|k: int|
                        0 <= k < to_visit@.len() ==> {
                            let x = #[trigger] to_visit@[k];
                            &&& seen.contains(x)
                            &&& seen.at(x)
                            &&& lvl <= distances.at(x) <= lvl + 1
                        },
                    forall|k: int, j: int|
                        0 <= k < j < to_visit@.len() ==> distances.at(#[trigger] to_visit@[j]) <= distances.at(
                            #[trigger] to_visit@[k],
                        ),
                    forall|z: Coord, k: nat|
                        k <= lvl && #[trigger] reach_in(*world2, z, k) ==> seen.contains(z) && seen.at(z),
                    forall|x: Coord|
                        #[trigger] seen.contains(x) && seen.at(x) && distances.at(x) != u32::MAX
                            && !to_visit@.contains(x) && x != cur ==> closed_at(*world2, seen, x),
                    forall|j: int|
                        0 <= j < k ==> {
                            let nb = #[trigger] coord_plus(cur, direction_delta(all_directions()[j]));
                            is_land(*world2, nb) ==> seen.at(nb)
                        },
                decreases 8 - k,
            {
                let nb = cur.plus(directions[k].coord());
                let mut is_new_land = false;
                match world2.get(nb) {
                    Some(cell) => {
                        if *cell == WorldCell2::Land {
                            if !*seen.get_checked(nb) {
                                is_new_land = true;
                            }
                        }
                    },
                    None => {},
                }
                if is_new_land {
                    let ghost before = seen;
                    let ghost d_before = distances;
                    let ghost prev_q = to_visit@;
                    proof {
                        lemma_index_bounds(size, nb);
                        lemma_count_true_update(seen.spec_cells(), index_of(size, nb));
                        lemma_neighbours(cur, nb);
                        assert(is_neighbour(cur, nb));
                        assert(reach_in(*world2, nb, (lvl + 1) as nat));
                        if within(*world2, nb, lvl) {
                            let j = choose|j: nat| j <= lvl && #[trigger] reach_in(*world2, nb, j);
                            assert(seen.at(nb));
                        }
                    }
                    seen.set(nb, true);
                    let distance = cur_distance + 1;
                    if distance < max_distance {
                        distances.set(nb, distance);
                        to_visit.push_front(nb);
                    }
                    proof {
                        lemma_count_true_bound(seen.spec_cells());
                        assert forall|c: Coord| #[trigger] distances.contains(c) && is_water(*world2, c) implies distances.at(c)
                            == 0 by {
                            assert(d_before.contains(c));
                            if c != nb {
                                assert(distances.at(c) == d_before.at(c));
                            }
                        }
                        assert forall|c: Coord|
                            #[trigger] seen.contains(c) && !seen.at(c) && is_land(*world2, c) implies distances.at(c)
                                == u32::MAX by {
                            assert(before.contains(c));
                            assert(d_before.contains(c));
                            if c != nb {
                                assert(seen.at(c) == before.at(c));
                                assert(distances.at(c) == d_before.at(c));
                            }
                        }
                        assert forall|c: Coord|
                            #[trigger] seen.contains(c) && seen.at(c) implies is_shore(*world2, c) || is_land(*world2, c) by {
                            assert(before.contains(c));
                            if c != nb {
                                assert(seen.at(c) == before.at(c));
                            }
                        }
                        assert forall|c: Coord| #[trigger] seen.contains(c) && is_shore(*world2, c) implies seen.at(c) by {
                            assert(before.contains(c));
                            if c != nb {
                                assert(seen.at(c) == before.at(c));
                            }
                        }
                        assert forall|c: Coord|
                            #[trigger] seen.contains(c) && seen.at(c) && distances.at(c) != u32::MAX implies distances.at(
                                c,
                            ) < 30 && reach_in(*world2, c, distances.at(c) as nat) && !within(
                                *world2,
                                c,
                                distances.at(c) - 1,
                            ) by {
                            assert(before.contains(c));
                            assert(d_before.contains(c));
                            if c != nb {
                                assert(seen.at(c) == before.at(c));
                                assert(distances.at(c) == d_before.at(c));
                            }
                        }
                        assert forall|c: Coord|
                            #[trigger] seen.contains(c) && seen.at(c) && distances.at(c) == u32::MAX implies reach_in(
                                *world2,
                                c,
                                30,
                            ) && !within(*world2, c, 29) by {
                            assert(before.contains(c));
                            assert(d_before.contains(c));
                            if c != nb {
                                assert(seen.at(c) == before.at(c));
                                assert(distances.at(c) == d_before.at(c));
                            }
                        }
                        assert forall|j: int| 0 <= j < to_visit@.len() implies {
                            let x = #[trigger] to_visit@[j];
                            &&& seen.contains(x)
                            &&& seen.at(x)
                            &&& lvl <= distances.at(x) <= lvl + 1
                        } by {
                            if to_visit@ != prev_q {
                                if j > 0 {
                                    let y = prev_q[j - 1];
                                    assert(to_visit@[j] == y);
                                    assert(before.contains(y) && before.at(y));
                                    assert(y != nb);
                                    assert(seen.at(y) == before.at(y));
                                    assert(distances.at(y) == d_before.at(y));
                                } else {
                                    assert(to_visit@[0] == nb);
                                }
                            } else {
                                let y = prev_q[j];
                                assert(before.contains(y) && before.at(y));
                                assert(y != nb);
                                assert(seen.at(y) == before.at(y));
                                assert(distances.at(y) == d_before.at(y));
                            }
                        }
                        assert forall|a: int, b: int| 0 <= a < b < to_visit@.len() implies distances.at(
                            #[trigger] to_visit@[b],
                        ) <= distances.at(#[trigger] to_visit@[a]) by {
                            if to_visit@ != prev_q {
                                let yb = prev_q[b - 1];
                                assert(to_visit@[b] == yb);
                                assert(before.contains(yb) && before.at(yb));
                                assert(distances.at(yb) == d_before.at(yb));
                                if a > 0 {
                                    let ya = prev_q[a - 1];
                                    assert(to_visit@[a] == ya);
                                    assert(before.contains(ya) && before.at(ya));
                                    assert(distances.at(ya) == d_before.at(ya));
                                } else {
                                    assert(to_visit@[0] == nb);
                                }
                            } else {
                                let ya = prev_q[a];
                                let yb = prev_q[b];
                                assert(before.contains(ya) && before.at(ya));
                                assert(before.contains(yb) && before.at(yb));
                                assert(distances.at(ya) == d_before.at(ya));
                                assert(distances.at(yb) == d_before.at(yb));
                            }
                        }
                        assert forall|z: Coord, j: nat| j <= lvl && #[trigger] reach_in(*world2, z, j) implies seen.contains(
                            z,
                        ) && seen.at(z) by {
                            assert(before.contains(z) && before.at(z));
                            if z != nb {
                                assert(seen.at(z) == before.at(z));
                            }
                        }
                        assert forall|x: Coord|
                            #[trigger] seen.contains(x) && seen.at(x) && distances.at(x) != u32::MAX
                                && !to_visit@.contains(x) && x != cur implies closed_at(*world2, seen, x) by {
                            assert(before.contains(x));
                            assert(d_before.contains(x));
                            if x == nb {
                                assert(distances.at(nb) == u32::MAX) by {
                                    if distance < max_distance {
                                        assert(to_visit@[0] == nb);
                                    }
                                }
                            }
                            assert(x != nb);
                            assert(seen.at(x) == before.at(x));
                            assert(distances.at(x) == d_before.at(x));
                            if prev_q.contains(x) {
                                let j = choose|j: int| 0 <= j < prev_q.len() && prev_q[j] == x;
                                if to_visit@ != prev_q {
                                    assert(to_visit@[j + 1] == x);
                                } else {
                                    assert(to_visit@[j] == x);
                                }
                            }
                            assert(closed_at(*world2, before, x));
                            assert forall|m: Coord| is_land(*world2, m) && #[trigger] is_neighbour(x, m) implies seen.at(m) by {
                                assert(before.at(m));
                                if m != nb {
                                    assert(seen.at(m) == before.at(m));
                                }
                            }
                        }
                        assert forall|j: int| 0 <= j < k + 1 implies {
                            let nb2 = #[trigger] coord_plus(cur, direction_delta(all_directions()[j]));
                            is_land(*world2, nb2) ==> seen.at(nb2)
                        } by {
                            let nb2 = coord_plus(cur, direction_delta(all_directions()[j]));
                            if is_land(*world2, nb2) && nb2 != nb {
                                if j < k {
                                    assert(before.at(nb2));
                                }
                                assert(before.contains(nb2));
                                assert(seen.at(nb2) == before.at(nb2));
                            }
                        }
                    }
                }
                k = k + 1;
            }
            proof {
                assert forall|m: Coord| is_land(*world2, m) && #[trigger] is_neighbour(cur, m) implies seen.at(m) by {
                    lemma_neighbours(cur, m);
                    let j = choose|j: int| 0 <= j < 8 && m == #[trigger] coord_plus(cur, direction_delta(all_directions()[j]));
                    assert(m == coord_plus(cur, direction_delta(all_directions()[j])));
                }
                assert(closed_at(*world2, seen, cur));
            }
        }
        proof {
            assert forall|x: Coord|
                #[trigger] seen.contains(x) && seen.at(x) && distances.at(x) != u32::MAX implies closed_at(*world2, seen, x) by {
                assert(!to_visit@.contains(x));
            }
            assert forall|c: Coord| #[trigger] distances.contains(c) implies water_distance_at(*world2, distances, c) by {
                assert(seen.contains(c));
                if !is_water(*world2, c) {
                    assert(is_land(*world2, c));
                    if within(*world2, c, 29) {
                        let j = choose|j: nat| j <= 29 && #[trigger] reach_in(*world2, c, j);
                        lemma_search_complete(*world2, seen, distances, j);
                        assert(seen.at(c) && distances.at(c) != u32::MAX);
                    } else {
                        if distances.at(c) != u32::MAX {
                            if seen.at(c) {
                                assert(reach_in(*world2, c, distances.at(c) as nat));
                                assert(within(*world2, c, 29));
                            }
                        }
                    }
                }
            }
        }
        WaterDistanceMap { distances }
    }
}

} // verus!
