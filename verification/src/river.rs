//! The first stages of world generation: a river across the land, widened, with towns placed
//! where the river crosses, and checked to split the land in two.
use crate::connectivity::{
    adjacent, lemma_closed_set_contains_reachable, lemma_reach_ends_open, lemma_reach_refl,
    lemma_reach_step, lemma_reach_sym, lemma_reach_trans, reachable,
};
use crate::geometry::{
    all_directions, cardinal_delta, cardinal_directions, coord_plus, direction_delta,
    is_cardinal_neighbour, is_neighbour, lemma_cardinal_neighbours, lemma_neighbours,
    CardinalDirection, Coord, Direction, Size,
};
use crate::grid::{
    coord_at_index, count_true, index_of, lemma_count_true_bound, lemma_count_true_update,
    lemma_coord_at_index, lemma_index_bounds, size_count, Grid,
};
use std::collections::VecDeque;
use vstd::prelude::*;

verus! {

/// A cell of the first world grid.
#[derive(Clone, Copy, Debug, PartialEq, Eq, Structural)]
pub enum WorldCell1 {
    Land,
    Water,
}

/// A grid of the given size that is land everywhere except on the cells of the river.
pub fn world_grid1_from_river(size: Size, river: &Vec<Coord>) -> (g: Grid<WorldCell1>)
    requires
        size.width <= i32::MAX,
        size.height <= i32::MAX,
        size_count(size) <= usize::MAX,
        forall|k: int| 0 <= k < river@.len() ==> crate::geometry::size_contains(size, #[trigger] river@[k]),
    ensures
        g.wf(),
        g.spec_size() == size,
        forall|c: Coord| #[trigger] g.contains(c) ==> (g.at(c) == WorldCell1::Water <==> river@.contains(c)),
{
    let mut grid = Grid::new_copy(size, WorldCell1::Land);
    let mut k: usize = 0;
    while k < river.len()
        invariant
            grid.wf(),
            grid.spec_size() == size,
            k <= river@.len(),
            forall|k: int| 0 <= k < river@.len() ==> crate::geometry::size_contains(size, #[trigger] river@[k]),
            forall|c: Coord|
                #[trigger] grid.contains(c) ==> (grid.at(c) == WorldCell1::Water <==> river@.take(
                    k as int,
                ).contains(c)),
        decreases river@.len() - k,
    {
        let c = river[k];
        let ghost g0 = grid;
        grid.set(c, WorldCell1::Water);
        proof {
            assert forall|d: Coord| #[trigger] grid.contains(d) implies (grid.at(d)
                == WorldCell1::Water <==> river@.take(k + 1).contains(d)) by {
                let t0 = river@.take(k as int);
                let t1 = river@.take(k + 1);
                assert(t1 =~= t0.push(c));
                assert(g0.contains(d));
                if d != c {
                    assert(grid.at(d) == g0.at(d));
                    if t0.contains(d) {
                        let j = choose|j: int| 0 <= j < t0.len() && t0[j] == d;
                        assert(t1[j] == d);
                    }
                    if t1.contains(d) {
                        let j = choose|j: int| 0 <= j < t1.len() && t1[j] == d;
                        assert(j < k);
                        assert(t0[j] == d);
                    }
                } else {
                    assert(t1[k as int] == c);
                }
            }
        }
        k = k + 1;
    }
    assert(river@.take(river@.len() as int) =~= river@);
    grid
}

/// One of the eight cells around `c` is a water cell of the grid.
pub open spec fn has_water_neighbour(g: Grid<WorldCell1>, c: Coord) -> bool {
    exists|n: Coord| #[trigger] is_neighbour(c, n) && g.contains(n) && g.at(n) == WorldCell1::Water
}

/// True iff one of the eight cells around `coord` is a water cell of the grid.
fn water_neighbour(grid: &Grid<WorldCell1>, coord: Coord) -> (b: bool)
    requires
        grid.wf(),
        grid.contains(coord),
    ensures
        b == has_water_neighbour(*grid, coord),
{
    let directions = Direction::all();
    let mut k: usize = 0;
    let mut found = false;
    while k < 8
        invariant
            grid.wf(),
            grid.contains(coord),
            directions@ == all_directions(),
            k <= 8,
            found == exists|i: int|
                0 <= i < k && {
                    let n = #[trigger] coord_plus(coord, direction_delta(all_directions()[i]));
                    grid.contains(n) && grid.at(n) == WorldCell1::Water
                },
        decreases 8 - k,
    {
        let n = coord.plus(directions[k].coord());
        if let Some(cell) = grid.get(n) {
            if *cell == WorldCell1::Water {
                found = true;
            }
        }
        k = k + 1;
    }
    proof {
        if found {
            let i = choose|i: int|
                0 <= i < 8 && {
                    let n = #[trigger] coord_plus(coord, direction_delta(all_directions()[i]));
                    grid.contains(n) && grid.at(n) == WorldCell1::Water
                };
            let n = coord_plus(coord, direction_delta(all_directions()[i]));
            lemma_neighbours(coord, n);
            assert(is_neighbour(coord, n));
        }
        if has_water_neighbour(*grid, coord) {
            let n = choose|n: Coord| #[trigger] is_neighbour(coord, n) && grid.contains(n) && grid.at(n)
                == WorldCell1::Water;
            lemma_neighbours(coord, n);
        }
    }
    found
}

/// Widens the river: every cell next to water (diagonally included) becomes water.
pub fn world_grid1_widen_river(grid: &mut Grid<WorldCell1>)
    requires
        old(grid).wf(),
    ensures
        final(grid).wf(),
        final(grid).spec_size() == old(grid).spec_size(),
        forall|c: Coord|
            #[trigger] final(grid).contains(c) ==> (final(grid).at(c) == WorldCell1::Water <==> (old(
                grid,
            ).at(c) == WorldCell1::Water || has_water_neighbour(*old(grid), c))),
{
    let mut new_grid = grid.copy();
    let n = grid.count();
    let mut i: usize = 0;
    while i < n
        invariant
            grid.wf(),
            new_grid.wf(),
            new_grid.spec_size() == grid.spec_size(),
            n == size_count(grid.spec_size()),
            i <= n,
            forall|c: Coord|
                #[trigger] new_grid.contains(c) ==> (new_grid.at(c) == WorldCell1::Water <==> (grid.at(c)
                    == WorldCell1::Water || (index_of(grid.spec_size(), c) < i && has_water_neighbour(
                    *grid,
                    c,
                )))),
        decreases n - i,
    {
        let coord = grid.coord_of_index(i);
        if water_neighbour(grid, coord) {
            let ghost g0 = new_grid;
            new_grid.set(coord, WorldCell1::Water);
            proof {
                assert forall|c: Coord| #[trigger] new_grid.contains(c) implies (new_grid.at(c)
                    == WorldCell1::Water <==> (grid.at(c) == WorldCell1::Water || (index_of(
                    grid.spec_size(),
                    c,
                ) < i + 1 && has_water_neighbour(*grid, c)))) by {
                    lemma_index_bounds(grid.spec_size(), c);
                    assert(g0.contains(c));
                    if c != coord {
                        assert(new_grid.at(c) == g0.at(c));
                        if index_of(grid.spec_size(), c) == i {
                            crate::grid::lemma_index_injective(grid.spec_size(), c, coord);
                        }
                    }
                }
            }
        } else {
            proof {
                assert forall|c: Coord| #[trigger] new_grid.contains(c) implies (new_grid.at(c)
                    == WorldCell1::Water <==> (grid.at(c) == WorldCell1::Water || (index_of(
                    grid.spec_size(),
                    c,
                ) < i + 1 && has_water_neighbour(*grid, c)))) by {
                    lemma_index_bounds(grid.spec_size(), c);
                    if index_of(grid.spec_size(), c) == i {
                        crate::grid::lemma_index_injective(grid.spec_size(), c, coord);
                    }
                }
            }
        }
        i = i + 1;
    }
    proof {
        assert forall|c: Coord| #[trigger] new_grid.contains(c) implies index_of(grid.spec_size(), c)
            < n by {
            lemma_index_bounds(grid.spec_size(), c);
        }
    }
    *grid = new_grid;
}

/// `c` is a land cell of the grid.
pub open spec fn is_land(g: Grid<WorldCell1>, c: Coord) -> bool {
    g.contains(c) && g.at(c) == WorldCell1::Land
}

/// The land cells of the grid, as a set.
pub open spec fn land_of(g: Grid<WorldCell1>) -> spec_fn(Coord) -> bool {
    |c: Coord| is_land(g, c)
}

/// A path of land cells, each sharing a side with the next, leads from `a` to `b`.
pub open spec fn land_reachable(g: Grid<WorldCell1>, a: Coord, b: Coord) -> bool {
    reachable(land_of(g), false, a, b)
}

/// `c` can be reached over land from one of the first `i` cells in row-major order.
pub open spec fn reached_before(g: Grid<WorldCell1>, i: int, c: Coord) -> bool {
    exists|j: int|
        0 <= j < i && #[trigger] land_reachable(g, coord_at_index(g.spec_size().width as int, j), c)
}

/// The `j`-th cell in row-major order is the first cell of its land region.
pub open spec fn is_region_start(g: Grid<WorldCell1>, j: int) -> bool {
    let c = coord_at_index(g.spec_size().width as int, j);
    is_land(g, c) && !reached_before(g, j, c)
}

/// The number of land regions that start among the first `i` cells in row-major order.
pub open spec fn regions_before(g: Grid<WorldCell1>, i: int) -> nat
    decreases i,
{
    if i <= 0 {
        0
    } else {
        regions_before(g, i - 1) + if is_region_start(g, i - 1) {
            1nat
        } else {
            0nat
        }
    }
}

/// The number of regions of land cells connected through shared sides.
pub open spec fn num_land_regions(g: Grid<WorldCell1>) -> nat {
    regions_before(g, size_count(g.spec_size()))
}

/// Every land cell next (by a side) to `x` is marked.
pub open spec fn closed_at(g: Grid<WorldCell1>, seen: Grid<bool>, x: Coord) -> bool {
    forall|n: Coord| is_land(g, n) && #[trigger] is_cardinal_neighbour(x, n) ==> seen.at(n)
}

/// Marks every land cell reachable from `start`.
fn flood_mark(grid: &Grid<WorldCell1>, seen: &mut Grid<bool>, start: Coord)
    requires
        grid.wf(),
        old(seen).wf(),
        old(seen).spec_size() == grid.spec_size(),
        is_land(*grid, start),
        !old(seen).at(start),
        forall|x: Coord| #[trigger] old(seen).contains(x) && old(seen).at(x) ==> !land_reachable(*grid, start, x),
    ensures
        final(seen).wf(),
        final(seen).spec_size() == grid.spec_size(),
        forall|x: Coord|
            #[trigger] final(seen).contains(x) ==> (final(seen).at(x) == (old(seen).at(x)
                || land_reachable(*grid, start, x))),
{
    let ghost s0 = *seen;
    let ghost open = land_of(*grid);
    let n = grid.count();
    let directions = CardinalDirection::all();
    proof {
        lemma_reach_refl(open, false, start);
        lemma_count_true_bound(seen.spec_cells());
        lemma_index_bounds(seen.spec_size(), start);
        lemma_count_true_update(seen.spec_cells(), index_of(seen.spec_size(), start));
    }
    seen.set(start, true);
    let mut to_visit: VecDeque<Coord> = VecDeque::new();
    to_visit.push_front(start);
    proof {
        lemma_count_true_bound(seen.spec_cells());
        assert(to_visit@[0] == start);
        assert forall|x: Coord|
            #[trigger] seen.contains(x) && seen.at(x) && !s0.at(x) && !to_visit@.contains(x)
                implies closed_at(*grid, *seen, x) by {
            if x != start {
                assert(seen.at(x) == s0.at(x));
            }
        }
    }
    while to_visit.len() > 0
        invariant
            grid.wf(),
            seen.wf(),
            seen.spec_size() == grid.spec_size(),
            s0.wf(),
            s0.spec_size() == grid.spec_size(),
            n == size_count(grid.spec_size()),
            directions@ == cardinal_directions(),
            open == land_of(*grid),
            is_land(*grid, start),
            seen.at(start),
            !s0.at(start),
            count_true(seen.spec_cells()) <= n,
            forall|x: Coord| #[trigger] s0.contains(x) && s0.at(x) ==> !land_reachable(*grid, start, x),
            forall|x: Coord| #[trigger] seen.contains(x) && s0.at(x) ==> seen.at(x),
            forall|x: Coord|
                #[trigger] seen.contains(x) && seen.at(x) && !s0.at(x) ==> land_reachable(*grid, start, x),
            forall|k: int|
                0 <= k < to_visit@.len() ==> {
                    let x = #[trigger] to_visit@[k];
                    seen.contains(x) && seen.at(x) && !s0.at(x)
                },
            forall|x: Coord|
                #[trigger] seen.contains(x) && seen.at(x) && !s0.at(x) && !to_visit@.contains(x)
                    ==> closed_at(*grid, *seen, x),
        decreases n - count_true(seen.spec_cells()), to_visit@.len(),
    {
        let ghost q0 = to_visit@;
        let cur = to_visit.pop_back().unwrap();
        let ghost q_after_pop = to_visit@;
        let ghost seen_at_pop = *seen;
        proof {
            assert(cur == q0[q0.len() - 1]);
            assert(seen.contains(cur) && seen.at(cur) && !s0.at(cur));
            assert forall|x: Coord|
                #[trigger] seen.contains(x) && seen.at(x) && !s0.at(x) && !to_visit@.contains(x)
                    && x != cur implies closed_at(*grid, *seen, x) by {
                if q0.contains(x) {
                    let j = choose|j: int| 0 <= j < q0.len() && q0[j] == x;
                    if j < q0.len() - 1 {
                        assert(to_visit@[j] == x);
                    }
                }
            }
        }
        let mut k: usize = 0;
        while k < 4
            invariant
                grid.wf(),
                seen.wf(),
                seen.spec_size() == grid.spec_size(),
                s0.wf(),
                s0.spec_size() == grid.spec_size(),
                n == size_count(grid.spec_size()),
                directions@ == cardinal_directions(),
                open == land_of(*grid),
                is_land(*grid, start),
                seen.at(start),
                !s0.at(start),
                0 <= k <= 4,
                seen.contains(cur),
                seen.at(cur),
                !s0.at(cur),
                land_reachable(*grid, start, cur),
                count_true(seen.spec_cells()) <= n,
                count_true(seen.spec_cells()) >= count_true(seen_at_pop.spec_cells()),
                count_true(seen.spec_cells()) == count_true(seen_at_pop.spec_cells()) ==> to_visit@ == q_after_pop,
                forall|x: Coord| #[trigger] s0.contains(x) && s0.at(x) ==> !land_reachable(*grid, start, x),
                forall|x: Coord| #[trigger] seen.contains(x) && s0.at(x) ==> seen.at(x),
                forall|x: Coord| #[trigger] seen.contains(x) && seen_at_pop.at(x) ==> seen.at(x),
                forall|x: Coord|
                    #[trigger] seen.contains(x) && seen.at(x) && !s0.at(x) ==> land_reachable(
                        *grid,
                        start,
                        x,
                    ),
                forall|j: int|
                    0 <= j < to_visit@.len() ==> {
                        let x = #[trigger] to_visit@[j];
                        seen.contains(x) && seen.at(x) && !s0.at(x)
                    },
                forall|x: Coord|
                    #[trigger] seen.contains(x) && seen.at(x) && !s0.at(x) && !to_visit@.contains(x)
                        && x != cur ==> closed_at(*grid, *seen, x),
                forall|j: int|
                    0 <= j < k ==> {
                        let nb = #[trigger] coord_plus(cur, cardinal_delta(cardinal_directions()[j]));
                        is_land(*grid, nb) ==> seen.at(nb)
                    },
            decreases 4 - k,
        {
            let nei = cur.plus(directions[k].coord());
            let mut is_new_land = false;
            if let Some(cell) = grid.get(nei) {
                if *cell == WorldCell1::Land {
                    if !*seen.get_checked(nei) {
                        is_new_land = true;
                    }
                }
            }
            if is_new_land {
                let ghost before = *seen;
                let ghost prev_q = to_visit@;
                proof {
                    lemma_index_bounds(seen.spec_size(), nei);
                    lemma_count_true_update(seen.spec_cells(), index_of(seen.spec_size(), nei));
                    lemma_cardinal_neighbours(cur, nei);
                    lemma_reach_step(open, false, start, cur, nei);
                }
                seen.set(nei, true);
                to_visit.push_front(nei);
                proof {
                    lemma_count_true_bound(seen.spec_cells());
                    assert(to_visit@ == seq![nei] + prev_q);
                    assert forall|j: int| 0 <= j < to_visit@.len() implies {
                        let x = #[trigger] to_visit@[j];
                        seen.contains(x) && seen.at(x) && !s0.at(x)
                    } by {
                        if j > 0 {
                            let y = prev_q[j - 1];
                            assert(to_visit@[j] == y);
                            assert(before.contains(y) && before.at(y) && !s0.at(y));
                            if y != nei {
                                assert(seen.at(y) == before.at(y));
                            }
                        } else {
                            assert(to_visit@[0] == nei);
                            assert(before.contains(nei));
                            assert(!before.at(nei));
                            assert(!s0.at(nei));
                        }
                    }
                    assert forall|x: Coord|
                        #[trigger] seen.contains(x) && seen.at(x) && !s0.at(x) && !to_visit@.contains(x)
                            && x != cur implies closed_at(*grid, *seen, x) by {
                        assert(to_visit@[0] == nei);
                        assert(before.contains(x));
                        if prev_q.contains(x) {
                            let j = choose|j: int| 0 <= j < prev_q.len() && prev_q[j] == x;
                            assert(to_visit@[j + 1] == x);
                        }
                        assert(closed_at(*grid, before, x));
                        assert forall|m: Coord|
                            is_land(*grid, m) && #[trigger] is_cardinal_neighbour(x, m) implies seen.at(m) by {
                            assert(before.at(m));
                            if m != nei {
                                assert(seen.at(m) == before.at(m));
                            }
                        }
                    }
                    assert forall|x: Coord| #[trigger] seen.contains(x) && seen_at_pop.at(x) implies seen.at(x) by {
                        assert(before.contains(x));
                    }
                    assert forall|x: Coord| #[trigger] seen.contains(x) && s0.at(x) implies seen.at(x) by {
                        assert(before.contains(x));
                    }
                    assert forall|x: Coord|
                        #[trigger] seen.contains(x) && seen.at(x) && !s0.at(x) implies land_reachable(*grid, start, x) by {
                        assert(before.contains(x));
                    }
                }
            }
            k = k + 1;
        }
        proof {
            assert forall|m: Coord| is_land(*grid, m) && #[trigger] is_cardinal_neighbour(cur, m) implies seen.at(m) by {
                lemma_cardinal_neighbours(cur, m);
                let j = choose|j: int|
                    0 <= j < 4 && m == #[trigger] coord_plus(cur, cardinal_delta(cardinal_directions()[j]));
                assert(m == coord_plus(cur, cardinal_delta(cardinal_directions()[j])));
            }
            assert(closed_at(*grid, *seen, cur));
        }
    }
    proof {
        let sf = *seen;
        let set = |x: Coord| sf.contains(x) && sf.at(x) && !s0.at(x);
        assert forall|x: Coord, m: Coord| set(x) && open(m) && #[trigger] adjacent(false, x, m) implies set(m) by {
            assert(!to_visit@.contains(x));
            assert(closed_at(*grid, sf, x));
            assert(is_land(*grid, m));
            assert(sf.at(m));
            assert(land_reachable(*grid, start, x));
            lemma_reach_step(open, false, start, x, m);
            assert(land_reachable(*grid, start, m));
            assert(sf.contains(m));
            assert(s0.contains(m));
            assert(!s0.at(m));
        }
        assert forall|x: Coord| #[trigger] sf.contains(x) implies (sf.at(x) == (s0.at(x)
            || land_reachable(*grid, start, x))) by {
            if land_reachable(*grid, start, x) {
                lemma_closed_set_contains_reachable(open, false, set, start, x);
            }
        }
    }
}

/// True iff the land cells of the grid, connected through shared sides, form exactly two
/// regions: the river splits the land in two without enclosing any island.
pub fn world_grid1_validate_no_loops(grid: &Grid<WorldCell1>) -> (b: bool)
    requires
        grid.wf(),
    ensures
        b == (num_land_regions(*grid) == 2),
{
    let n = grid.count();
    let mut seen = Grid::new_copy(grid.size(), false);
    let mut region_counter: usize = 0;
    let mut i: usize = 0;
    let ghost w = grid.spec_size().width as int;
    while i < n
        invariant
            grid.wf(),
            seen.wf(),
            seen.spec_size() == grid.spec_size(),
            w == grid.spec_size().width as int,
            n == size_count(grid.spec_size()),
            i <= n,
            region_counter == regions_before(*grid, i as int),
            region_counter <= i,
            forall|x: Coord| #[trigger] seen.contains(x) ==> (seen.at(x) == reached_before(*grid, i as int, x)),
        decreases n - i,
    {
        let coord = grid.coord_of_index(i);
        let ghost open = land_of(*grid);
        let ghost s_before = seen;
        let is_land_cell = *grid.get_checked(coord) == WorldCell1::Land;
        if is_land_cell && !*seen.get_checked(coord) {
            proof {
                assert(seen.contains(coord));
                assert(!reached_before(*grid, i as int, coord));
                assert forall|x: Coord| #[trigger] seen.contains(x) && seen.at(x) implies !land_reachable(*grid, coord, x) by {
                    assert(reached_before(*grid, i as int, x));
                    let j = choose|j: int| 0 <= j < i && #[trigger] land_reachable(*grid, coord_at_index(w, j), x);
                    if land_reachable(*grid, coord, x) {
                        lemma_reach_sym(open, false, coord, x);
                        lemma_reach_trans(open, false, coord_at_index(w, j), x, coord);
                        assert(land_reachable(*grid, coord_at_index(w, j), coord));
                        assert(reached_before(*grid, i as int, coord));
                    }
                }
            }
            flood_mark(grid, &mut seen, coord);
            region_counter = region_counter + 1;
            proof {
                assert(is_region_start(*grid, i as int));
                assert forall|x: Coord| #[trigger] seen.contains(x) implies (seen.at(x) == reached_before(*grid, i + 1, x)) by {
                    assert(s_before.contains(x));
                    if reached_before(*grid, i + 1, x) {
                        let j = choose|j: int| 0 <= j < i + 1 && #[trigger] land_reachable(*grid, coord_at_index(w, j), x);
                        if j < i {
                            assert(reached_before(*grid, i as int, x));
                        }
                    }
                    if s_before.at(x) {
                        let j = choose|j: int| 0 <= j < i && #[trigger] land_reachable(*grid, coord_at_index(w, j), x);
                        assert(land_reachable(*grid, coord_at_index(w, j), x));
                    }
                    if land_reachable(*grid, coord, x) {
                        assert(land_reachable(*grid, coord_at_index(w, i as int), x));
                    }
                }
            }
        } else {
            proof {
                assert(seen.contains(coord));
                assert(coord == coord_at_index(w, i as int));
                assert(!is_region_start(*grid, i as int));
                assert forall|x: Coord| #[trigger] seen.contains(x) implies (seen.at(x) == reached_before(*grid, i + 1, x)) by {
                    if reached_before(*grid, i + 1, x) {
                        let j = choose|j: int| 0 <= j < i + 1 && #[trigger] land_reachable(*grid, coord_at_index(w, j), x);
                        if j == i {
                            lemma_reach_ends_open(open, false, coord, x);
                            assert(is_land(*grid, coord));
                            assert(reached_before(*grid, i as int, coord));
                            let j2 = choose|j2: int| 0 <= j2 < i && #[trigger] land_reachable(*grid, coord_at_index(w, j2), coord);
                            lemma_reach_trans(open, false, coord_at_index(w, j2), coord, x);
                            assert(land_reachable(*grid, coord_at_index(w, j2), x));
                        }
                        assert(reached_before(*grid, i as int, x));
                    }
                    if reached_before(*grid, i as int, x) {
                        let j = choose|j: int| 0 <= j < i && #[trigger] land_reachable(*grid, coord_at_index(w, j), x);
                        assert(land_reachable(*grid, coord_at_index(w, j), x));
                    }
                }
            }
        }
        i = i + 1;
    }
    region_counter == 2
}

} // verus!
