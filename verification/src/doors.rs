//! Doors between the rooms of a hull. The floor is split into rooms, the walls between two
//! rooms offer runs of candidate door sites, a random spanning tree of those runs (and half of
//! the others) gets a door each, and the stairs and the spawn point are placed on open floor.
use crate::connectivity::{
    adjacent, lemma_closed_set_contains_reachable, lemma_reach_ends_open, lemma_reach_refl,
    lemma_reach_step, lemma_reach_sym, lemma_reach_trans, reachable,
};
use crate::geometry::{
    axis_coord, axis_get, cardinal_delta, cardinal_directions, coord_plus, is_cardinal_neighbour,
    lemma_cardinal_neighbours, other_axis, size_contains, Axis, CardinalDirection, Coord, Size,
};
use crate::grid::{
    coord_at_index, count_true, index_of, lemma_count_true_bound, lemma_count_true_update,
    lemma_coord_at_index, lemma_index_bounds, size_count, Grid,
};
use crate::hull::HullCell;
use crate::random::{choose_one, gen_range_i32, gen_range_usize, shuffle};
use rand_isaac::Isaac64Rng;
use std::collections::VecDeque;
use vstd::prelude::*;

verus! {

/// A cell of a hull once its doors, stairs and spawn point are placed.
#[derive(Clone, Copy, Debug, PartialEq, Eq, Structural)]
pub enum DoorCell {
    Wall,
    Floor,
    Space,
    Door(Axis),
    Stairs,
    Spawn,
}

/// The room that a floor cell belongs to.
#[derive(Clone, Copy, Debug, PartialEq, Eq, Structural)]
pub struct FloorCell {
    pub room_id: usize,
}

/// `c` is a floor cell of the hull.
pub open spec fn is_floor(g: Grid<HullCell>, c: Coord) -> bool {
    g.contains(c) && g.at(c) == HullCell::Floor
}

/// The floor cells of the hull, as a set.
pub open spec fn floor_of(g: Grid<HullCell>) -> spec_fn(Coord) -> bool {
    |c: Coord| is_floor(g, c)
}

/// A path of floor cells, each sharing a side with the next, leads from `a` to `b`.
pub open spec fn floor_reachable(g: Grid<HullCell>, a: Coord, b: Coord) -> bool {
    reachable(floor_of(g), false, a, b)
}

/// `c` can be reached over the floor from one of the first `i` cells in row-major order.
pub open spec fn room_reached_before(g: Grid<HullCell>, i: int, c: Coord) -> bool {
    exists|j: int|
        0 <= j < i && #[trigger] floor_reachable(g, coord_at_index(g.spec_size().width as int, j), c)
}

/// The `j`-th cell in row-major order is the first cell of its room.
pub open spec fn is_room_start(g: Grid<HullCell>, j: int) -> bool {
    let c = coord_at_index(g.spec_size().width as int, j);
    is_floor(g, c) && !room_reached_before(g, j, c)
}

/// The number of rooms whose first cell is among the first `i` cells in row-major order.
pub open spec fn rooms_before(g: Grid<HullCell>, i: int) -> nat
    decreases i,
{
    if i <= 0 {
        0
    } else {
        rooms_before(g, i - 1) + if is_room_start(g, i - 1) {
            1nat
        } else {
            0nat
        }
    }
}

/// The number of rooms of the hull: regions of floor connected through shared sides.
pub open spec fn num_rooms(g: Grid<HullCell>) -> nat {
    rooms_before(g, size_count(g.spec_size()))
}

/// The position in row-major order of the first cell of the room of `x`.
pub open spec fn room_start_of(g: Grid<HullCell>, x: Coord) -> int {
    choose|j: int|
        0 <= j < size_count(g.spec_size()) && is_room_start(g, j) && #[trigger] floor_reachable(
            g,
            coord_at_index(g.spec_size().width as int, j),
            x,
        )
}

/// The room of the floor cell `x`: rooms are numbered from 0 in the row-major order of their
/// first cells.
pub open spec fn room_of(g: Grid<HullCell>, x: Coord) -> nat {
    rooms_before(g, room_start_of(g, x))
}

/// Every floor cell next (by a side) to `x` is marked.
pub open spec fn floor_closed_at(g: Grid<HullCell>, seen: Grid<bool>, x: Coord) -> bool {
    forall|n: Coord| is_floor(g, n) && #[trigger] is_cardinal_neighbour(x, n) ==> seen.at(n)
}

proof fn lemma_rooms_before_monotonic(g: Grid<HullCell>, i: int, j: int)
    requires
        0 <= i <= j,
    ensures
        rooms_before(g, i) <= rooms_before(g, j),
        i < j && is_room_start(g, i) ==> rooms_before(g, i) < rooms_before(g, j),
    decreases j - i,
{
    if i < j {
        lemma_rooms_before_monotonic(g, i, j - 1);
        assert(rooms_before(g, j) == rooms_before(g, j - 1) + if is_room_start(g, j - 1) {
            1nat
        } else {
            0nat
        });
    }
}

proof fn lemma_rooms_before_bound(g: Grid<HullCell>, i: int)
    requires
        i >= 0,
    ensures
        rooms_before(g, i) <= i,
    decreases i,
{
    if i > 0 {
        lemma_rooms_before_bound(g, i - 1);
    }
}

/// Two room starts that reach the same cell are the same start.
proof fn lemma_room_start_unique(g: Grid<HullCell>, j1: int, j2: int, x: Coord)
    requires
        g.wf(),
        0 <= j1 < size_count(g.spec_size()),
        0 <= j2 < size_count(g.spec_size()),
        is_room_start(g, j1),
        is_room_start(g, j2),
        floor_reachable(g, coord_at_index(g.spec_size().width as int, j1), x),
        floor_reachable(g, coord_at_index(g.spec_size().width as int, j2), x),
    ensures
        j1 == j2,
{
    let w = g.spec_size().width as int;
    let open = floor_of(g);
    let c1 = coord_at_index(w, j1);
    let c2 = coord_at_index(w, j2);
    lemma_reach_sym(open, false, c2, x);
    lemma_reach_trans(open, false, c1, x, c2);
    lemma_reach_sym(open, false, c1, x);
    lemma_reach_trans(open, false, c2, x, c1);
    if j1 < j2 {
        assert(floor_reachable(g, coord_at_index(g.spec_size().width as int, j1), c2));
        assert(room_reached_before(g, j2, c2));
    } else if j2 < j1 {
        assert(floor_reachable(g, coord_at_index(g.spec_size().width as int, j2), c1));
        assert(room_reached_before(g, j1, c1));
    }
}

/// A cell reached from one of the first `i` cells is reached from a room start among them.
proof fn lemma_room_start_exists(g: Grid<HullCell>, i: int, x: Coord)
    requires
        g.wf(),
        i <= size_count(g.spec_size()),
        room_reached_before(g, i, x),
    ensures
        exists|j: int|
            0 <= j < i && is_room_start(g, j) && #[trigger] floor_reachable(
                g,
                coord_at_index(g.spec_size().width as int, j),
                x,
            ),
    decreases i,
{
    let w = g.spec_size().width as int;
    let open = floor_of(g);
    let j = choose|j: int| 0 <= j < i && #[trigger] floor_reachable(g, coord_at_index(w, j), x);
    let c = coord_at_index(w, j);
    lemma_reach_ends_open(open, false, c, x);
    if !is_room_start(g, j) {
        assert(room_reached_before(g, j, c));
        let j2 = choose|j2: int| 0 <= j2 < j && #[trigger] floor_reachable(g, coord_at_index(w, j2), c);
        lemma_reach_trans(open, false, coord_at_index(w, j2), c, x);
        assert(floor_reachable(g, coord_at_index(w, j2), x));
        lemma_room_start_exists(g, j, x);
    }
}

/// The room of a cell reached from the room start `j` is the number of rooms that start
/// before `j`.
proof fn lemma_room_of_start(g: Grid<HullCell>, j: int, x: Coord)
    requires
        g.wf(),
        0 <= j < size_count(g.spec_size()),
        is_room_start(g, j),
        floor_reachable(g, coord_at_index(g.spec_size().width as int, j), x),
    ensures
        room_start_of(g, x) == j,
        room_of(g, x) == rooms_before(g, j),
{
    let k = room_start_of(g, x);
    lemma_room_start_unique(g, j, k, x);
}

/// Marks every floor cell reachable from `start` as seen and labels it with the room `id`.
fn label_room(
    grid: &Grid<HullCell>,
    seen: &mut Grid<bool>,
    labels: &mut Grid<Option<FloorCell>>,
    start: Coord,
    id: usize,
)
    requires
        grid.wf(),
        old(seen).wf(),
        old(seen).spec_size() == grid.spec_size(),
        old(labels).wf(),
        old(labels).spec_size() == grid.spec_size(),
        is_floor(*grid, start),
        !old(seen).at(start),
        forall|x: Coord| #[trigger] old(seen).contains(x) && old(seen).at(x) ==> !floor_reachable(*grid, start, x),
    ensures
        final(seen).wf(),
        final(seen).spec_size() == grid.spec_size(),
        forall|x: Coord|
            #[trigger] final(seen).contains(x) ==> (final(seen).at(x) == (old(seen).at(x)
                || floor_reachable(*grid, start, x))),
        final(labels).wf(),
        final(labels).spec_size() == grid.spec_size(),
        forall|x: Coord|
            #![trigger final(labels).at(x)]
            final(labels).contains(x) ==> final(labels).at(x) == if !old(seen).at(x) && floor_reachable(
                *grid,
                start,
                x,
            ) {
                Some(FloorCell { room_id: id })
            } else {
                old(labels).at(x)
            },
{
    let ghost s0 = *seen;
    let ghost l0 = *labels;
    let ghost open = floor_of(*grid);
    let n = grid.count();
    let directions = CardinalDirection::all();
    proof {
        lemma_reach_refl(open, false, start);
        lemma_count_true_bound(seen.spec_cells());
        lemma_index_bounds(seen.spec_size(), start);
        lemma_count_true_update(seen.spec_cells(), index_of(seen.spec_size(), start));
    }
    seen.set(start, true);
    labels.set(start, Some(FloorCell { room_id: id }));
    let mut to_visit: VecDeque<Coord> = VecDeque::new();
    to_visit.push_front(start);
    proof {
        assert forall|x: Coord| #![trigger labels.at(x)] labels.contains(x) implies labels.at(x) == if seen.at(x)
            && !s0.at(x) {
            Some(FloorCell { room_id: id })
        } else {
            l0.at(x)
        } by {
            if x != start {
                assert(seen.at(x) == s0.at(x));
            }
        }
        lemma_count_true_bound(seen.spec_cells());
        assert(to_visit@[0] == start);
        assert forall|x: Coord|
            #[trigger] seen.contains(x) && seen.at(x) && !s0.at(x) && !to_visit@.contains(x)
                implies floor_closed_at(*grid, *seen, x) by {
            if x != start {
                assert(seen.at(x) == s0.at(x));
            }
        }
    }
    while to_visit.len() > 0
        invariant
            grid.wf(),
            labels.wf(),
            labels.spec_size() == grid.spec_size(),
            forall|x: Coord|
                #![trigger labels.at(x)]
                labels.contains(x) ==> labels.at(x) == if seen.at(x) && !s0.at(x) {
                    Some(FloorCell { room_id: id })
                } else {
                    l0.at(x)
                },
            seen.wf(),
            seen.spec_size() == grid.spec_size(),
            s0.wf(),
            s0.spec_size() == grid.spec_size(),
            n == size_count(grid.spec_size()),
            directions@ == cardinal_directions(),
            open == floor_of(*grid),
            is_floor(*grid, start),
            seen.at(start),
            !s0.at(start),
            count_true(seen.spec_cells()) <= n,
            forall|x: Coord| #[trigger] s0.contains(x) && s0.at(x) ==> !floor_reachable(*grid, start, x),
            forall|x: Coord| #[trigger] seen.contains(x) && s0.at(x) ==> seen.at(x),
            forall|x: Coord|
                #[trigger] seen.contains(x) && seen.at(x) && !s0.at(x) ==> floor_reachable(*grid, start, x),
            forall|k: int|
                0 <= k < to_visit@.len() ==> {
                    let x = #[trigger] to_visit@[k];
                    seen.contains(x) && seen.at(x) && !s0.at(x)
                },
            forall|x: Coord|
                #[trigger] seen.contains(x) && seen.at(x) && !s0.at(x) && !to_visit@.contains(x)
                    ==> floor_closed_at(*grid, *seen, x),
        decreases n - count_true(seen.spec_cells()), to_visit@.len(),
    {
        let ghost q0 = to_visit@;
        let cur = to_visit.pop_back().unwrap();
        let ghost q_after_pop = to_visit@;
        let ghost seen_at_pop = *seen;
        proof {
            assert(cur == q0[q0.len() - 1]);
            assert(seen.contains(cur) && seen.at(cur) && !s0.at(cur));
            assert forall|x: Coord|
                #[trigger] seen.contains(x) && seen.at(x) && !s0.at(x) && !to_visit@.contains(x)
                    && x != cur implies floor_closed_at(*grid, *seen, x) by {
                if q0.contains(x) {
                    let j = choose|j: int| 0 <= j < q0.len() && q0[j] == x;
                    if j < q0.len() - 1 {
                        assert(to_visit@[j] == x);
                    }
                }
            }
        }
        let mut k: usize = 0;
        while k < 4
            invariant
                grid.wf(),
                labels.wf(),
                labels.spec_size() == grid.spec_size(),
                forall|x: Coord|
                    #![trigger labels.at(x)]
                    labels.contains(x) ==> labels.at(x) == if seen.at(x) && !s0.at(x) {
                        Some(FloorCell { room_id: id })
                    } else {
                        l0.at(x)
                    },
                seen.wf(),
                seen.spec_size() == grid.spec_size(),
                s0.wf(),
                s0.spec_size() == grid.spec_size(),
                n == size_count(grid.spec_size()),
                directions@ == cardinal_directions(),
                open == floor_of(*grid),
                is_floor(*grid, start),
                seen.at(start),
                !s0.at(start),
                0 <= k <= 4,
                seen.contains(cur),
                seen.at(cur),
                !s0.at(cur),
                floor_reachable(*grid, start, cur),
                count_true(seen.spec_cells()) <= n,
                count_true(seen.spec_cells()) >= count_true(seen_at_pop.spec_cells()),
                count_true(seen.spec_cells()) == count_true(seen_at_pop.spec_cells()) ==> to_visit@ == q_after_pop,
                forall|x: Coord| #[trigger] s0.contains(x) && s0.at(x) ==> !floor_reachable(*grid, start, x),
                forall|x: Coord| #[trigger] seen.contains(x) && s0.at(x) ==> seen.at(x),
                forall|x: Coord| #[trigger] seen.contains(x) && seen_at_pop.at(x) ==> seen.at(x),
                forall|x: Coord|
                    #[trigger] seen.contains(x) && seen.at(x) && !s0.at(x) ==> floor_reachable(
                        *grid,
                        start,
                        x,
                    ),
                forall|j: int|
                    0 <= j < to_visit@.len() ==> {
                        let x = #[trigger] to_visit@[j];
                        seen.contains(x) && seen.at(x) && !s0.at(x)
                    },
                forall|x: Coord|
                    #[trigger] seen.contains(x) && seen.at(x) && !s0.at(x) && !to_visit@.contains(x)
                        && x != cur ==> floor_closed_at(*grid, *seen, x),
                forall|j: int|
                    0 <= j < k ==> {
                        let nb = #[trigger] coord_plus(cur, cardinal_delta(cardinal_directions()[j]));
                        is_floor(*grid, nb) ==> seen.at(nb)
                    },
            decreases 4 - k,
        {
            let nei = cur.plus(directions[k].coord());
            let mut is_new_floor = false;
            if let Some(cell) = grid.get(nei) {
                if *cell == HullCell::Floor {
                    if !*seen.get_checked(nei) {
                        is_new_floor = true;
                    }
                }
            }
            if is_new_floor {
                let ghost before = *seen;
                let ghost prev_q = to_visit@;
                proof {
                    lemma_index_bounds(seen.spec_size(), nei);
                    lemma_count_true_update(seen.spec_cells(), index_of(seen.spec_size(), nei));
                    lemma_cardinal_neighbours(cur, nei);
                    lemma_reach_step(open, false, start, cur, nei);
                }
                let ghost before_labels = *labels;
                seen.set(nei, true);
                labels.set(nei, Some(FloorCell { room_id: id }));
                to_visit.push_front(nei);
                proof {
                    assert forall|x: Coord| #![trigger labels.at(x)] labels.contains(x) implies labels.at(x)
                        == if seen.at(x) && !s0.at(x) {
                        Some(FloorCell { room_id: id })
                    } else {
                        l0.at(x)
                    } by {
                        assert(before.contains(x));
                        if x != nei {
                            assert(labels.at(x) == before_labels.at(x));
                            assert(seen.at(x) == before.at(x));
                        }
                    }
                    lemma_count_true_bound(seen.spec_cells());
                    assert(to_visit@ == seq![nei] + prev_q);
                    assert forall|j: int| 0 <= j < to_visit@.len() implies {
                        let x = #[trigger] to_visit@[j];
                        seen.contains(x) && seen.at(x) && !s0.at(x)
                    } by {
                        if j > 0 {
                            let y = prev_q[j - 1];
                            assert(to_visit@[j] == y);
                            assert(before.contains(y) && before.at(y) && !s0.at(y));
                            if y != nei {
                                assert(seen.at(y) == before.at(y));
                            }
                        } else {
                            assert(to_visit@[0] == nei);
                            assert(before.contains(nei));
                            assert(!before.at(nei));
                            assert(!s0.at(nei));
                        }
                    }
                    assert forall|x: Coord|
                        #[trigger] seen.contains(x) && seen.at(x) && !s0.at(x) && !to_visit@.contains(x)
                            && x != cur implies floor_closed_at(*grid, *seen, x) by {
                        assert(to_visit@[0] == nei);
                        assert(before.contains(x));
                        if prev_q.contains(x) {
                            let j = choose|j: int| 0 <= j < prev_q.len() && prev_q[j] == x;
                            assert(to_visit@[j + 1] == x);
                        }
                        assert(floor_closed_at(*grid, before, x));
                        assert forall|m: Coord|
                            is_floor(*grid, m) && #[trigger] is_cardinal_neighbour(x, m) implies seen.at(m) by {
                            assert(before.at(m));
                            if m != nei {
                                assert(seen.at(m) == before.at(m));
                            }
                        }
                    }
                    assert forall|x: Coord| #[trigger] seen.contains(x) && seen_at_pop.at(x) implies seen.at(x) by {
                        assert(before.contains(x));
                    }
                    assert forall|x: Coord| #[trigger] seen.contains(x) && s0.at(x) implies seen.at(x) by {
                        assert(before.contains(x));
                    }
                    assert forall|x: Coord|
                        #[trigger] seen.contains(x) && seen.at(x) && !s0.at(x) implies floor_reachable(*grid, start, x) by {
                        assert(before.contains(x));
                    }
                }
            }
            k = k + 1;
        }
        proof {
            assert forall|m: Coord| is_floor(*grid, m) && #[trigger] is_cardinal_neighbour(cur, m) implies seen.at(m) by {
                lemma_cardinal_neighbours(cur, m);
                let j = choose|j: int|
                    0 <= j < 4 && m == #[trigger] coord_plus(cur, cardinal_delta(cardinal_directions()[j]));
                assert(m == coord_plus(cur, cardinal_delta(cardinal_directions()[j])));
            }
            assert(floor_closed_at(*grid, *seen, cur));
        }
    }
    proof {
        let sf = *seen;
        let set = |x: Coord| sf.contains(x) && sf.at(x) && !s0.at(x);
        assert forall|x: Coord, m: Coord| set(x) && open(m) && #[trigger] adjacent(false, x, m) implies set(m) by {
            assert(!to_visit@.contains(x));
            assert(floor_closed_at(*grid, sf, x));
            assert(is_floor(*grid, m));
            assert(sf.at(m));
            assert(floor_reachable(*grid, start, x));
            lemma_reach_step(open, false, start, x, m);
            assert(floor_reachable(*grid, start, m));
            assert(sf.contains(m));
            assert(s0.contains(m));
            assert(!s0.at(m));
        }
        assert forall|x: Coord| #[trigger] sf.contains(x) implies (sf.at(x) == (s0.at(x)
            || floor_reachable(*grid, start, x))) by {
            if floor_reachable(*grid, start, x) {
                lemma_closed_set_contains_reachable(open, false, set, start, x);
            }
        }
        assert forall|x: Coord| #![trigger labels.at(x)] labels.contains(x) implies labels.at(x) == if !s0.at(x)
            && floor_reachable(*grid, start, x) {
            Some(FloorCell { room_id: id })
        } else {
            l0.at(x)
        } by {
            assert(sf.contains(x));
            if floor_reachable(*grid, start, x) {
                lemma_closed_set_contains_reachable(open, false, set, start, x);
            }
        }
    }
}

/// The first cell of the room of a floor cell is a room start from which the cell is reached.
proof fn lemma_room_start_of(g: Grid<HullCell>, x: Coord)
    requires
        g.wf(),
        is_floor(g, x),
    ensures
        0 <= room_start_of(g, x) < size_count(g.spec_size()),
        is_room_start(g, room_start_of(g, x)),
        floor_reachable(g, coord_at_index(g.spec_size().width as int, room_start_of(g, x)), x),
{
    let w = g.spec_size().width as int;
    lemma_index_bounds(g.spec_size(), x);
    let i = index_of(g.spec_size(), x);
    assert(coord_at_index(w, i) == x);
    lemma_reach_refl(floor_of(g), false, x);
    assert(floor_reachable(g, coord_at_index(w, i), x));
    lemma_room_start_exists(g, size_count(g.spec_size()), x);
    let j = choose|j: int|
        0 <= j < size_count(g.spec_size()) && is_room_start(g, j) && #[trigger] floor_reachable(
            g,
            coord_at_index(w, j),
            x,
        );
    lemma_room_of_start(g, j, x);
}

/// Two floor cells are in the same room exactly when a path of floor cells, each sharing a
/// side with the next, joins them; and every room number is below the number of rooms.
pub proof fn law_rooms_are_floor_regions(g: Grid<HullCell>, x: Coord, y: Coord)
    requires
        g.wf(),
        is_floor(g, x),
        is_floor(g, y),
    ensures
        room_of(g, x) == room_of(g, y) <==> floor_reachable(g, x, y),
        room_of(g, x) < num_rooms(g),
{
    let w = g.spec_size().width as int;
    let open = floor_of(g);
    lemma_room_start_of(g, x);
    lemma_room_start_of(g, y);
    let jx = room_start_of(g, x);
    let jy = room_start_of(g, y);
    let cx = coord_at_index(w, jx);
    let cy = coord_at_index(w, jy);
    if floor_reachable(g, x, y) {
        lemma_reach_trans(open, false, cx, x, y);
        lemma_room_start_unique(g, jx, jy, y);
    }
    if room_of(g, x) == room_of(g, y) {
        if jx < jy {
            lemma_rooms_before_monotonic(g, jx, jy);
        } else if jy < jx {
            lemma_rooms_before_monotonic(g, jy, jx);
        }
        assert(jx == jy);
        lemma_reach_sym(open, false, cx, x);
        lemma_reach_trans(open, false, x, cx, y);
    }
    lemma_rooms_before_monotonic(g, jx, size_count(g.spec_size()));
}

/// The room of each floor cell of the hull, and `None` on every other cell. Rooms are the
/// regions of floor connected through shared sides, numbered from 0 in the row-major order of
/// their first cells.
pub fn classify_floor_cells_into_rooms(grid: &Grid<HullCell>) -> (r: Grid<Option<FloorCell>>)
    requires
        grid.wf(),
    ensures
        r.wf(),
        r.spec_size() == grid.spec_size(),
        forall|x: Coord|
            #![trigger r.at(x)]
            r.contains(x) ==> r.at(x) == if is_floor(*grid, x) {
                Some(FloorCell { room_id: room_of(*grid, x) as usize })
            } else {
                None
            },
{
    let n = grid.count();
    let mut floor_grid: Grid<Option<FloorCell>> = Grid::new_copy(grid.size(), None);
    let mut seen = Grid::new_copy(grid.size(), false);
    let mut next_room_id: usize = 0;
    let mut i: usize = 0;
    let ghost w = grid.spec_size().width as int;
    let ghost open = floor_of(*grid);
    while i < n
        invariant
            grid.wf(),
            seen.wf(),
            seen.spec_size() == grid.spec_size(),
            floor_grid.wf(),
            floor_grid.spec_size() == grid.spec_size(),
            w == grid.spec_size().width as int,
            open == floor_of(*grid),
            n == size_count(grid.spec_size()),
            i <= n,
            next_room_id == rooms_before(*grid, i as int),
            next_room_id <= i,
            forall|x: Coord| #[trigger] seen.contains(x) ==> (seen.at(x) == room_reached_before(*grid, i as int, x)),
            forall|x: Coord|
                #![trigger floor_grid.at(x)]
                floor_grid.contains(x) ==> floor_grid.at(x) == if room_reached_before(*grid, i as int, x) {
                    Some(FloorCell { room_id: room_of(*grid, x) as usize })
                } else {
                    None
                },
        decreases n - i,
    {
        let coord = grid.coord_of_index(i);
        let ghost s_before = seen;
        let ghost l_before = floor_grid;
        let is_floor_cell = *grid.get_checked(coord) == HullCell::Floor;
        if is_floor_cell && !*seen.get_checked(coord) {
            proof {
                assert(seen.contains(coord));
                assert(!room_reached_before(*grid, i as int, coord));
                assert forall|x: Coord| #[trigger] seen.contains(x) && seen.at(x) implies !floor_reachable(*grid, coord, x) by {
                    assert(room_reached_before(*grid, i as int, x));
                    let j = choose|j: int| 0 <= j < i && #[trigger] floor_reachable(*grid, coord_at_index(w, j), x);
                    if floor_reachable(*grid, coord, x) {
                        lemma_reach_sym(open, false, coord, x);
                        lemma_reach_trans(open, false, coord_at_index(w, j), x, coord);
                        assert(floor_reachable(*grid, coord_at_index(w, j), coord));
                        assert(room_reached_before(*grid, i as int, coord));
                    }
                }
                assert(is_room_start(*grid, i as int));
            }
            label_room(grid, &mut seen, &mut floor_grid, coord, next_room_id);
            proof {
                assert forall|x: Coord| #[trigger] seen.contains(x) implies (seen.at(x) == room_reached_before(*grid, i + 1, x)) by {
                    assert(s_before.contains(x));
                    if room_reached_before(*grid, i + 1, x) {
                        let j = choose|j: int| 0 <= j < i + 1 && #[trigger] floor_reachable(*grid, coord_at_index(w, j), x);
                        if j < i {
                            assert(room_reached_before(*grid, i as int, x));
                        }
                    }
                    if s_before.at(x) {
                        let j = choose|j: int| 0 <= j < i && #[trigger] floor_reachable(*grid, coord_at_index(w, j), x);
                        assert(floor_reachable(*grid, coord_at_index(w, j), x));
                    }
                    if floor_reachable(*grid, coord, x) {
                        assert(floor_reachable(*grid, coord_at_index(w, i as int), x));
                    }
                }
                assert forall|x: Coord|
                    #![trigger floor_grid.at(x)]
                    floor_grid.contains(x) implies floor_grid.at(x) == if room_reached_before(*grid, i + 1, x) {
                        Some(FloorCell { room_id: room_of(*grid, x) as usize })
                    } else {
                        None
                    } by {
                    assert(s_before.contains(x));
                    assert(seen.contains(x));
                    assert(seen.at(x) == room_reached_before(*grid, i + 1, x));
                    if !s_before.at(x) && floor_reachable(*grid, coord, x) {
                        lemma_room_of_start(*grid, i as int, x);
                    }
                }
            }
            next_room_id = next_room_id + 1;
        } else {
            proof {
                assert(seen.contains(coord));
                assert(coord == coord_at_index(w, i as int));
                assert(!is_room_start(*grid, i as int));
                assert forall|x: Coord| room_reached_before(*grid, i + 1, x) implies #[trigger] room_reached_before(
                    *grid,
                    i as int,
                    x,
                ) by {
                    let j = choose|j: int| 0 <= j < i + 1 && #[trigger] floor_reachable(*grid, coord_at_index(w, j), x);
                    if j == i {
                        lemma_reach_ends_open(open, false, coord, x);
                        assert(is_floor(*grid, coord));
                        assert(room_reached_before(*grid, i as int, coord));
                        let j2 = choose|j2: int| 0 <= j2 < i && #[trigger] floor_reachable(*grid, coord_at_index(w, j2), coord);
                        lemma_reach_trans(open, false, coord_at_index(w, j2), coord, x);
                        assert(floor_reachable(*grid, coord_at_index(w, j2), x));
                    }
                }
                assert forall|x: Coord| room_reached_before(*grid, i as int, x) implies #[trigger] room_reached_before(
                    *grid,
                    i + 1,
                    x,
                ) by {
                    let j = choose|j: int| 0 <= j < i && #[trigger] floor_reachable(*grid, coord_at_index(w, j), x);
                    assert(floor_reachable(*grid, coord_at_index(w, j), x));
                }
            }
        }
        i = i + 1;
    }
    proof {
        assert forall|x: Coord| floor_grid.contains(x) implies (room_reached_before(*grid, n as int, x)
            <==> #[trigger] is_floor(*grid, x)) by {
            if room_reached_before(*grid, n as int, x) {
                let j = choose|j: int| 0 <= j < n && #[trigger] floor_reachable(*grid, coord_at_index(w, j), x);
                lemma_reach_ends_open(open, false, coord_at_index(w, j), x);
            }
            if is_floor(*grid, x) {
                lemma_index_bounds(grid.spec_size(), x);
                let j = index_of(grid.spec_size(), x);
                assert(coord_at_index(w, j) == x);
                lemma_reach_refl(open, false, x);
                assert(floor_reachable(*grid, coord_at_index(w, j), x));
            }
        }
    }
    floor_grid
}


/// A run of wall cells, each with a labelled floor cell on both sides along `axis`; the run
/// goes along the other axis from `top_left` for `length` cells, between the rooms
/// `left_room_id` (backwards along `axis`) and `right_room_id` (forwards).
#[derive(Clone, Copy, Debug, PartialEq, Eq, Structural)]
pub struct DoorCandidate {
    pub axis: Axis,
    pub top_left: Coord,
    pub length: u32,
    pub left_room_id: usize,
    pub right_room_id: usize,
}

/// The extent of `s` along `axis`.
pub open spec fn size_along(s: Size, axis: Axis) -> int {
    match axis {
        Axis::X => s.width as int,
        Axis::Y => s.height as int,
    }
}

/// The cells of a grid of size `s` in the order of a scan along `axis`: by component along
/// `axis`, then by the other component.
pub open spec fn scan_order(s: Size, axis: Axis) -> Seq<Coord> {
    let b = size_along(s, other_axis(axis));
    Seq::new((size_along(s, axis) * b) as nat, |k: int| axis_coord(axis, k / b, k % b))
}

/// The cell `t` steps from `c` along the other axis than `axis`.
pub open spec fn step_across(axis: Axis, c: Coord, t: int) -> Coord {
    coord_plus(c, axis_coord(axis, 0, t))
}

/// The cell `d` steps from `c` along `axis`.
pub open spec fn step_along(axis: Axis, c: Coord, d: int) -> Coord {
    coord_plus(c, axis_coord(axis, d, 0))
}

/// The label of the cell `c`, or `None` outside the grid.
pub open spec fn label_at(floor: Grid<Option<FloorCell>>, c: Coord) -> Option<FloorCell> {
    if floor.contains(c) {
        floor.at(c)
    } else {
        None
    }
}

/// `c` is a wall of the hull with a labelled floor cell on both sides along `axis`.
pub open spec fn door_site(hull: Grid<HullCell>, floor: Grid<Option<FloorCell>>, axis: Axis, c: Coord) -> bool {
    &&& hull.contains(c)
    &&& hull.at(c) == HullCell::Wall
    &&& label_at(floor, step_along(axis, c, -1)) is Some
    &&& label_at(floor, step_along(axis, c, 1)) is Some
}

/// The door sites along `axis`, as a set.
pub open spec fn door_site_of(hull: Grid<HullCell>, floor: Grid<Option<FloorCell>>, axis: Axis) -> spec_fn(
    Coord,
) -> bool {
    |c: Coord| door_site(hull, floor, axis, c)
}

/// The cells of the run of `c`, in order.
pub open spec fn run_cells(c: DoorCandidate) -> Seq<Coord> {
    Seq::new(c.length as nat, |t: int| step_across(c.axis, c.top_left, t))
}

/// The cells of the runs of `cs`, one run after the other.
pub open spec fn all_run_cells(cs: Seq<DoorCandidate>) -> Seq<Coord>
    decreases cs.len(),
{
    if cs.len() == 0 {
        Seq::empty()
    } else {
        all_run_cells(cs.drop_last()) + run_cells(cs.last())
    }
}

/// `c` runs along the other axis than `axis`, has at least one cell, each with the room
/// `c.left_room_id` behind it and the room `c.right_room_id` before it along `axis`; a run of
/// more than one cell lies between two different rooms.
pub open spec fn candidate_fits(floor: Grid<Option<FloorCell>>, axis: Axis, c: DoorCandidate) -> bool {
    &&& c.axis == axis
    &&& c.length >= 1
    &&& forall|t: int|
        0 <= t < c.length ==> label_at(floor, step_along(axis, #[trigger] step_across(axis, c.top_left, t), -1))
            == Some(FloorCell { room_id: c.left_room_id }) && label_at(
            floor,
            step_along(axis, step_across(axis, c.top_left, t), 1),
        ) == Some(FloorCell { room_id: c.right_room_id })
    &&& c.length > 1 ==> c.left_room_id != c.right_room_id
}

/// The site `coord`, between the rooms `left` and `right`, would continue the run of `c`:
/// the rooms differ and match those of `c`, and `coord` is the cell just after the run.
pub open spec fn continues(c: DoorCandidate, coord: Coord, left: usize, right: usize) -> bool {
    &&& left != right
    &&& c.left_room_id == left
    &&& c.right_room_id == right
    &&& step_across(c.axis, c.top_left, c.length as int) == coord
}

/// The candidate lies in the grid of size `s`: it starts on a cell of the grid and its run
/// ends inside the grid.
pub open spec fn candidate_in(s: Size, c: DoorCandidate) -> bool {
    &&& size_contains(s, c.top_left)
    &&& axis_get(c.top_left, other_axis(c.axis)) + c.length <= size_along(s, other_axis(c.axis))
}

impl DoorCandidate {
    /// The cell just after the run.
    pub fn next_coord(&self) -> (c: Coord)
        requires
            0 <= self.top_left.x,
            0 <= self.top_left.y,
            axis_get(self.top_left, other_axis(self.axis)) + self.length <= i32::MAX,
        ensures
            c == step_across(self.axis, self.top_left, self.length as int),
    {
        self.top_left.plus(Coord::new_axis(0, self.length as i32, self.axis))
    }
}

proof fn lemma_all_run_cells_push(cs: Seq<DoorCandidate>, c: DoorCandidate)
    ensures
        all_run_cells(cs.push(c)) == all_run_cells(cs) + run_cells(c),
{
    assert(cs.push(c).drop_last() =~= cs);
}

proof fn lemma_all_run_cells_extend(cs: Seq<DoorCandidate>, c: DoorCandidate)
    requires
        cs.len() > 0,
        c.axis == cs.last().axis,
        c.top_left == cs.last().top_left,
        c.length == cs.last().length + 1,
    ensures
        all_run_cells(cs.update(cs.len() - 1, c)) == all_run_cells(cs).push(
            step_across(c.axis, c.top_left, cs.last().length as int),
        ),
{
    let cs2 = cs.update(cs.len() - 1, c);
    assert(cs2.drop_last() =~= cs.drop_last());
    assert(run_cells(c) =~= run_cells(cs.last()).push(step_across(c.axis, c.top_left, cs.last().length as int)));
}

/// The runs of door sites along `axis`, in the order of a scan along `axis`: each run gathers
/// consecutive sites of one column (along the other axis) between the same two different
/// rooms. `floor` holds the rooms of the hull's floor cells.
pub fn identify_door_candidates_in_axis(
    hull: &Grid<HullCell>,
    floor: &Grid<Option<FloorCell>>,
    axis: Axis,
) -> (r: Vec<DoorCandidate>)
    requires
        hull.wf(),
        floor.wf(),
        floor.spec_size() == hull.spec_size(),
    ensures
        all_run_cells(r@) == scan_order(hull.spec_size(), axis).filter(door_site_of(*hull, *floor, axis)),
        forall|k: int| 0 <= k < r@.len() ==> candidate_fits(*floor, axis, #[trigger] r@[k]),
        forall|k: int| 0 <= k < r@.len() ==> candidate_in(hull.spec_size(), #[trigger] r@[k]),
        forall|k: int|
            0 < k < r@.len() ==> !continues(r@[k - 1], (#[trigger] r@[k]).top_left, r@[k].left_room_id, r@[k].right_room_id),
{
    let size = hull.size();
    let a = size.get(axis);
    let b = size.get(axis.other());
    let ghost scan = scan_order(hull.spec_size(), axis);
    let ghost site = door_site_of(*hull, *floor, axis);
    let ghost bi = b as int;
    let mut r: Vec<DoorCandidate> = Vec::new();
    let mut i: u32 = 0;
    assert(scan.take(0) =~= Seq::<Coord>::empty());
    while i < a
        invariant
            hull.wf(),
            floor.wf(),
            floor.spec_size() == hull.spec_size(),
            size == hull.spec_size(),
            a == size_along(size, axis),
            b == size_along(size, other_axis(axis)),
            bi == b,
            scan == scan_order(hull.spec_size(), axis),
            site == door_site_of(*hull, *floor, axis),
            i <= a,
            all_run_cells(r@) == scan.take(i * bi).filter(site),
            forall|k: int| 0 <= k < r@.len() ==> candidate_fits(*floor, axis, #[trigger] r@[k]),
            forall|k: int| 0 <= k < r@.len() ==> candidate_in(size, #[trigger] r@[k]),
            forall|k: int|
                0 < k < r@.len() ==> !continues(r@[k - 1], (#[trigger] r@[k]).top_left, r@[k].left_room_id, r@[k].right_room_id),
        decreases a - i,
    {
        let mut j: u32 = 0;
        while j < b
            invariant
                hull.wf(),
                floor.wf(),
                floor.spec_size() == hull.spec_size(),
                size == hull.spec_size(),
                a == size_along(size, axis),
                b == size_along(size, other_axis(axis)),
                bi == b,
                scan == scan_order(hull.spec_size(), axis),
                site == door_site_of(*hull, *floor, axis),
                i < a,
                j <= b,
                all_run_cells(r@) == scan.take(i * bi + j).filter(site),
                forall|k: int| 0 <= k < r@.len() ==> candidate_fits(*floor, axis, #[trigger] r@[k]),
                forall|k: int| 0 <= k < r@.len() ==> candidate_in(size, #[trigger] r@[k]),
                forall|k: int|
                    0 < k < r@.len() ==> !continues(r@[k - 1], (#[trigger] r@[k]).top_left, r@[k].left_room_id, r@[k].right_room_id),
            decreases b - j,
        {
            let coord = Coord::new_axis(i as i32, j as i32, axis);
            let ghost kk = i * bi + j;
            proof {
                assert(i * bi + j < a * bi) by (nonlinear_arith)
                    requires
                        i < a,
                        j < bi,
                ;
                vstd::arithmetic::div_mod::lemma_fundamental_div_mod_converse(kk, bi, i as int, j as int);
                assert(scan[kk] == coord);
                assert(scan.take(kk + 1) =~= scan.take(kk).push(coord));
                scan.take(kk).lemma_filter_push(coord, site);
            }
            let ghost r0 = r@;
            let hull_cell = *hull.get_checked(coord);
            let mut is_site = false;
            if hull_cell == HullCell::Wall {
                let l = coord.plus(Coord::new_axis(-1, 0, axis));
                let rr = coord.plus(Coord::new_axis(1, 0, axis));
                if let Some(lopt) = floor.get(l) {
                    if let Some(rropt) = floor.get(rr) {
                        if let Some(lc) = *lopt {
                            if let Some(rc) = *rropt {
                                is_site = true;
                                let mut updated_current = false;
                                if lc.room_id != rc.room_id && r.len() > 0 {
                                    let idx = r.len() - 1;
                                    let last = r[idx];
                                    proof {
                                        assert(candidate_in(size, r@[idx as int]));
                                    }
                                    if last.left_room_id == lc.room_id && last.right_room_id == rc.room_id
                                        && last.next_coord() == coord {
                                        let c2 = DoorCandidate {
                                            axis: last.axis,
                                            top_left: last.top_left,
                                            length: last.length + 1,
                                            left_room_id: last.left_room_id,
                                            right_room_id: last.right_room_id,
                                        };
                                        r.set(idx, c2);
                                        updated_current = true;
                                        proof {
                                            lemma_all_run_cells_extend(r0, c2);
                                            assert(r@ == r0.update(idx as int, c2));
                                            assert forall|t: int| 0 <= t < c2.length implies label_at(
                                                *floor,
                                                step_along(axis, #[trigger] step_across(axis, c2.top_left, t), -1),
                                            ) == Some(FloorCell { room_id: c2.left_room_id }) && label_at(
                                                *floor,
                                                step_along(axis, step_across(axis, c2.top_left, t), 1),
                                            ) == Some(FloorCell { room_id: c2.right_room_id }) by {
                                                assert(candidate_fits(*floor, axis, r0[idx as int]));
                                                if t < last.length {
                                                } else {
                                                    assert(step_across(axis, c2.top_left, t) == coord);
                                                }
                                            }
                                            assert(candidate_fits(*floor, axis, c2));
                                            assert forall|k: int| 0 <= k < r@.len() implies candidate_fits(
                                                *floor,
                                                axis,
                                                #[trigger] r@[k],
                                            ) by {
                                                if k != idx {
                                                    assert(r@[k] == r0[k]);
                                                }
                                            }
                                            assert forall|k: int| 0 <= k < r@.len() implies candidate_in(
                                                size,
                                                #[trigger] r@[k],
                                            ) by {
                                                if k != idx {
                                                    assert(r@[k] == r0[k]);
                                                }
                                            }
                                            assert forall|k: int| 0 < k < r@.len() implies !continues(
                                                r@[k - 1],
                                                (#[trigger] r@[k]).top_left,
                                                r@[k].left_room_id,
                                                r@[k].right_room_id,
                                            ) by {
                                                assert(r0[k - 1] == r@[k - 1] || k - 1 == idx);
                                                if k != idx {
                                                    assert(r@[k] == r0[k]);
                                                    assert(r@[k - 1] == r0[k - 1]);
                                                } else {
                                                    assert(r@[k - 1] == r0[k - 1]);
                                                    assert(!continues(r0[k - 1], r0[k].top_left, r0[k].left_room_id, r0[k].right_room_id));
                                                }
                                            }
                                        }
                                    }
                                }
                                if !updated_current {
                                    let c2 = DoorCandidate {
                                        axis: axis,
                                        top_left: coord,
                                        length: 1,
                                        left_room_id: lc.room_id,
                                        right_room_id: rc.room_id,
                                    };
                                    r.push(c2);
                                    proof {
                                        lemma_all_run_cells_push(r0, c2);
                                        assert(run_cells(c2) =~= seq![coord]);
                                        assert(r@ == r0.push(c2));
                                        assert forall|t: int| 0 <= t < c2.length implies label_at(
                                            *floor,
                                            step_along(axis, #[trigger] step_across(axis, c2.top_left, t), -1),
                                        ) == Some(FloorCell { room_id: c2.left_room_id }) && label_at(
                                            *floor,
                                            step_along(axis, step_across(axis, c2.top_left, t), 1),
                                        ) == Some(FloorCell { room_id: c2.right_room_id }) by {
                                            assert(t == 0);
                                            assert(step_across(axis, c2.top_left, t) == coord);
                                        }
                                        assert forall|k: int| 0 <= k < r@.len() implies candidate_fits(
                                            *floor,
                                            axis,
                                            #[trigger] r@[k],
                                        ) by {
                                            if k < r0.len() {
                                                assert(r@[k] == r0[k]);
                                            }
                                        }
                                        assert forall|k: int| 0 <= k < r@.len() implies candidate_in(
                                            size,
                                            #[trigger] r@[k],
                                        ) by {
                                            if k < r0.len() {
                                                assert(r@[k] == r0[k]);
                                            }
                                        }
                                        assert forall|k: int| 0 < k < r@.len() implies !continues(
                                            r@[k - 1],
                                            (#[trigger] r@[k]).top_left,
                                            r@[k].left_room_id,
                                            r@[k].right_room_id,
                                        ) by {
                                            if k < r0.len() {
                                                assert(r@[k] == r0[k]);
                                                assert(r@[k - 1] == r0[k - 1]);
                                            }
                                        }
                                    }
                                }
                            }
                        }
                    }
                }
            }
            proof {
                assert(is_site == site(coord));
            }
            j = j + 1;
        }
        proof {
            assert(i * bi + bi == (i + 1) * bi) by (nonlinear_arith);
        }
        i = i + 1;
    }
    proof {
        assert(a * bi == scan.len());
        assert(scan.take(a * bi) =~= scan);
    }
    r
}


/// An edge of the room graph: the room it leads to and the candidate it goes through.
#[derive(Clone, Copy, Debug, PartialEq, Eq, Structural)]
pub struct RoomEdge {
    pub to_room_id: usize,
    pub via: usize,
}

/// A room of the graph, with its edges.
pub struct RoomNode {
    pub edges: Vec<RoomEdge>,
}

/// The rooms of a hull joined by the door candidates between them.
pub struct RoomGraph {
    pub door_candidates: Vec<DoorCandidate>,
    pub nodes: Vec<RoomNode>,
}

/// The edges that the candidate `d`, numbered `k`, gives the room `room`: one to the room on
/// its right if `room` is on its left, then one to the room on its left if `room` is on its
/// right.
pub open spec fn edges_of_candidate(d: DoorCandidate, k: int, room: int) -> Seq<RoomEdge> {
    (if d.left_room_id == room {
        seq![RoomEdge { to_room_id: d.right_room_id, via: k as usize }]
    } else {
        Seq::empty()
    }) + (if d.right_room_id == room {
        seq![RoomEdge { to_room_id: d.left_room_id, via: k as usize }]
    } else {
        Seq::empty()
    })
}

/// The edges of the room `room`, in the order of the candidates that give them.
pub open spec fn room_edges(cs: Seq<DoorCandidate>, room: int) -> Seq<RoomEdge>
    decreases cs.len(),
{
    if cs.len() == 0 {
        Seq::empty()
    } else {
        room_edges(cs.drop_last(), room) + edges_of_candidate(cs.last(), cs.len() - 1, room)
    }
}

/// The largest room number that the candidates name, or -1 when there are none.
pub open spec fn max_room_id(cs: Seq<DoorCandidate>) -> int
    decreases cs.len(),
{
    if cs.len() == 0 {
        -1
    } else {
        let d = cs.last();
        let m = if d.left_room_id < d.right_room_id {
            d.right_room_id as int
        } else {
            d.left_room_id as int
        };
        let rest = max_room_id(cs.drop_last());
        if rest < m {
            m
        } else {
            rest
        }
    }
}

proof fn lemma_max_room_id(cs: Seq<DoorCandidate>, k: int)
    requires
        0 <= k < cs.len(),
    ensures
        cs[k].left_room_id <= max_room_id(cs),
        cs[k].right_room_id <= max_room_id(cs),
    decreases cs.len(),
{
    if k < cs.len() - 1 {
        lemma_max_room_id(cs.drop_last(), k);
    }
}

proof fn lemma_room_edges_take(cs: Seq<DoorCandidate>, k: int, room: int)
    requires
        0 <= k < cs.len(),
    ensures
        room_edges(cs.take(k + 1), room) == room_edges(cs.take(k), room) + edges_of_candidate(cs[k], k, room),
{
    assert(cs.take(k + 1).drop_last() =~= cs.take(k));
}

impl RoomGraph {
    /// The graph whose rooms are numbered up to the largest room that a candidate names, each
    /// with the edges that the candidates give it.
    pub fn new(door_candidates: Vec<DoorCandidate>) -> (g: RoomGraph)
        requires
            door_candidates@.len() > 0,
            forall|k: int|
                0 <= k < door_candidates@.len() ==> (#[trigger] door_candidates@[k]).left_room_id < usize::MAX
                    && door_candidates@[k].right_room_id < usize::MAX,
        ensures
            g.door_candidates@ == door_candidates@,
            g.nodes@.len() == max_room_id(door_candidates@) + 1,
            forall|r: int| 0 <= r < g.nodes@.len() ==> (#[trigger] g.nodes@[r]).edges@ == room_edges(door_candidates@, r),
    {
        let n = door_candidates.len();
        let ghost cs = door_candidates@;
        let mut num_rooms: usize = 0;
        let mut k: usize = 0;
        while k < n
            invariant
                n == cs.len(),
                cs == door_candidates@,
                k <= n,
                num_rooms == max_room_id(cs.take(k as int)) + 1,
                forall|k: int|
                    0 <= k < cs.len() ==> (#[trigger] cs[k]).left_room_id < usize::MAX && cs[k].right_room_id
                        < usize::MAX,
            decreases n - k,
        {
            let d = door_candidates[k];
            let m = if d.left_room_id < d.right_room_id {
                d.right_room_id
            } else {
                d.left_room_id
            };
            assert(cs.take(k + 1).drop_last() =~= cs.take(k as int));
            if num_rooms < m + 1 {
                num_rooms = m + 1;
            }
            k = k + 1;
        }
        assert(cs.take(n as int) =~= cs);
        let mut nodes: Vec<RoomNode> = Vec::new();
        let mut r: usize = 0;
        while r < num_rooms
            invariant
                r <= num_rooms,
                nodes@.len() == r,
                forall|q: int| 0 <= q < r ==> (#[trigger] nodes@[q]).edges@ == Seq::<RoomEdge>::empty(),
            decreases num_rooms - r,
        {
            nodes.push(RoomNode { edges: Vec::new() });
            r = r + 1;
        }
        let mut k: usize = 0;
        while k < n
            invariant
                n == cs.len(),
                cs == door_candidates@,
                k <= n,
                num_rooms == max_room_id(cs) + 1,
                nodes@.len() == num_rooms,
                forall|q: int| 0 <= q < num_rooms ==> (#[trigger] nodes@[q]).edges@ == room_edges(cs.take(k as int), q),
            decreases n - k,
        {
            let d = door_candidates[k];
            proof {
                lemma_max_room_id(cs, k as int);
            }
            let ghost before = nodes@;
            nodes[d.left_room_id].edges.push(RoomEdge { to_room_id: d.right_room_id, via: k });
            let ghost middle = nodes@;
            nodes[d.right_room_id].edges.push(RoomEdge { to_room_id: d.left_room_id, via: k });
            proof {
                assert forall|q: int| 0 <= q < num_rooms implies (#[trigger] nodes@[q]).edges@ == room_edges(
                    cs.take(k + 1),
                    q,
                ) by {
                    lemma_room_edges_take(cs, k as int, q);
                    if q == d.left_room_id {
                        assert(middle[q].edges@ == before[q].edges@.push(RoomEdge { to_room_id: d.right_room_id, via: k }));
                    } else {
                        assert(middle[q] == before[q]);
                    }
                    if q == d.right_room_id {
                        assert(nodes@[q].edges@ == middle[q].edges@.push(RoomEdge { to_room_id: d.left_room_id, via: k }));
                    } else {
                        assert(nodes@[q] == middle[q]);
                    }
                    assert(nodes@[q].edges@ =~= room_edges(cs.take(k + 1), q));
                }
            }
            k = k + 1;
        }
        assert(cs.take(n as int) =~= cs);
        assert(nodes@.len() == max_room_id(door_candidates@) + 1);
        RoomGraph { door_candidates, nodes }
    }
}


/// The room `room` is on one side of the candidate `d`.
pub open spec fn on_side(d: DoorCandidate, room: int) -> bool {
    d.left_room_id == room || d.right_room_id == room
}

/// `room` is on one side of a candidate marked in `in_tree`.
pub open spec fn touches(cs: Seq<DoorCandidate>, in_tree: Seq<bool>, room: int) -> bool {
    exists|k: int| 0 <= k < cs.len() && in_tree[k] && #[trigger] on_side(cs[k], room)
}

/// For each of the first `n` rooms, whether a candidate marked in `in_tree` touches it.
pub open spec fn touched_rooms(cs: Seq<DoorCandidate>, in_tree: Seq<bool>, n: int) -> Seq<bool> {
    Seq::new(n as nat, |r: int| touches(cs, in_tree, r))
}

proof fn lemma_room_edges_sound(cs: Seq<DoorCandidate>, room: int, e: RoomEdge)
    requires
        cs.len() <= usize::MAX,
        room_edges(cs, room).contains(e),
    ensures
        e.via < cs.len(),
        on_side(cs[e.via as int], room),
        on_side(cs[e.via as int], e.to_room_id as int),
    decreases cs.len(),
{
    let k = cs.len() - 1;
    let a = room_edges(cs.drop_last(), room);
    let ec = edges_of_candidate(cs.last(), k, room);
    assert(room_edges(cs, room) == a + ec);
    let i = choose|i: int| 0 <= i < room_edges(cs, room).len() && room_edges(cs, room)[i] == e;
    if i < a.len() {
        assert(a[i] == e);
        lemma_room_edges_sound(cs.drop_last(), room, e);
        assert(cs.drop_last()[e.via as int] == cs[e.via as int]);
    } else {
        assert(ec[i - a.len()] == e);
        let d = cs.last();
        if d.left_room_id == room && i - a.len() == 0 {
            assert(e == RoomEdge { to_room_id: d.right_room_id, via: k as usize });
        } else {
            assert(d.right_room_id == room);
            assert(e == RoomEdge { to_room_id: d.left_room_id, via: k as usize });
        }
    }
}

proof fn lemma_room_edges_complete(cs: Seq<DoorCandidate>, k: int)
    requires
        0 <= k < cs.len(),
        cs.len() <= usize::MAX,
    ensures
        room_edges(cs, cs[k].left_room_id as int).contains(
            RoomEdge { to_room_id: cs[k].right_room_id, via: k as usize },
        ),
        room_edges(cs, cs[k].right_room_id as int).contains(
            RoomEdge { to_room_id: cs[k].left_room_id, via: k as usize },
        ),
    decreases cs.len(),
{
    let last = cs.len() - 1;
    let el = RoomEdge { to_room_id: cs[k].right_room_id, via: k as usize };
    let er = RoomEdge { to_room_id: cs[k].left_room_id, via: k as usize };
    let rl = cs[k].left_room_id as int;
    let rr = cs[k].right_room_id as int;
    if k < last {
        lemma_room_edges_complete(cs.drop_last(), k);
        let a = room_edges(cs.drop_last(), rl);
        let i = choose|i: int| 0 <= i < a.len() && a[i] == el;
        assert(room_edges(cs, rl)[i] == el);
        let b = room_edges(cs.drop_last(), rr);
        let j = choose|j: int| 0 <= j < b.len() && b[j] == er;
        assert(room_edges(cs, rr)[j] == er);
    } else {
        let a = room_edges(cs.drop_last(), rl);
        assert(room_edges(cs, rl)[a.len() as int] == el);
        let b = room_edges(cs.drop_last(), rr);
        let ec = edges_of_candidate(cs[k], k, rr);
        assert(ec[ec.len() - 1] == er);
        assert(room_edges(cs, rr)[b.len() + ec.len() - 1] == er);
    }
}

proof fn lemma_count_true_pos(s: Seq<bool>, i: int)
    requires
        0 <= i < s.len(),
        s[i],
    ensures
        count_true(s) > 0,
    decreases s.len(),
{
    if i < s.len() - 1 {
        lemma_count_true_pos(s.drop_last(), i);
    }
}

impl RoomGraph {
    /// The graph has a candidate, one room per number up to the largest that a candidate
    /// names, and in each room the edges that the candidates give it.
    pub open spec fn wf(&self) -> bool {
        &&& self.door_candidates@.len() > 0
        &&& self.nodes@.len() == max_room_id(self.door_candidates@) + 1
        &&& forall|r: int|
            0 <= r < self.nodes@.len() ==> (#[trigger] self.nodes@[r]).edges@ == room_edges(
                self.door_candidates@,
                r,
            )
    }

    /// A random tree of candidates: starting from a random candidate, candidates waiting to be
    /// looked at are taken at random, and one joins the tree when it reaches a room that the
    /// tree did not touch yet; the candidates leading out of the rooms it reaches then wait
    /// too. Whatever the draws, the result marks by number the candidates of the tree: at
    /// least one; a candidate with a room that the tree touches has both its rooms touched;
    /// and there are no more candidates in the tree than rooms it touches.
    pub fn random_door_candidate_minimum_spanning_tree(&self, rng: &mut Isaac64Rng) -> (in_tree: Vec<bool>)
        requires
            self.wf(),
        ensures
            in_tree@.len() == self.door_candidates@.len(),
            exists|k: int| 0 <= k < in_tree@.len() && in_tree@[k],
            forall|k: int|
                0 <= k < self.door_candidates@.len() && (touches(
                    self.door_candidates@,
                    in_tree@,
                    (#[trigger] self.door_candidates@[k]).left_room_id as int,
                ) || touches(self.door_candidates@, in_tree@, self.door_candidates@[k].right_room_id as int))
                    ==> touches(self.door_candidates@, in_tree@, self.door_candidates@[k].left_room_id as int)
                    && touches(self.door_candidates@, in_tree@, self.door_candidates@[k].right_room_id as int),
            count_true(in_tree@) <= count_true(
                touched_rooms(self.door_candidates@, in_tree@, self.nodes@.len() as int),
            ),
    {
        let n = self.door_candidates.len();
        let nr = self.nodes.len();
        let ghost cs = self.door_candidates@;
        let mut in_tree: Vec<bool> = Vec::new();
        let mut k: usize = 0;
        while k < n
            invariant
                k <= n,
                in_tree@.len() == k,
                forall|j: int| 0 <= j < k ==> !in_tree@[j],
            decreases n - k,
        {
            in_tree.push(false);
            k = k + 1;
        }
        let mut visited: Vec<bool> = Vec::new();
        let mut k: usize = 0;
        while k < nr
            invariant
                k <= nr,
                visited@.len() == k,
                forall|j: int| 0 <= j < k ==> !visited@[j],
            decreases nr - k,
        {
            visited.push(false);
            k = k + 1;
        }
        let first = gen_range_usize(rng, 0, n);
        let mut to_visit: Vec<usize> = Vec::new();
        to_visit.push(first);
        proof {
            assert forall|r: int| 0 <= r < nr implies (visited@[r] <==> touches(cs, in_tree@, r)) by {
                if touches(cs, in_tree@, r) {
                    let j = choose|j: int| 0 <= j < cs.len() && in_tree@[j] && #[trigger] on_side(cs[j], r);
                }
            }
            lemma_count_true_all_false(in_tree@);
            lemma_count_true_all_false(visited@);
        }
        while to_visit.len() > 0
            invariant
                self.wf(),
                cs == self.door_candidates@,
                n == cs.len(),
                nr == self.nodes@.len(),
                in_tree@.len() == n,
                visited@.len() == nr,
                forall|r: int| 0 <= r < nr ==> (visited@[r] <==> touches(cs, in_tree@, r)),
                count_true(in_tree@) <= count_true(visited@),
                forall|j: int| 0 <= j < to_visit@.len() ==> #[trigger] to_visit@[j] < n,
                forall|r: int, e: RoomEdge|
                    0 <= r < nr && visited@[r] && #[trigger] room_edges(cs, r).contains(e) ==> visited@[e.to_room_id as int]
                        || to_visit@.contains(e.via),
                (exists|k: int| 0 <= k < n && in_tree@[k]) || (count_true(visited@) == 0 && to_visit@.len() > 0),
            decreases nr - count_true(visited@), to_visit@.len(),
        {
            proof {
                lemma_count_true_bound(visited@);
            }
            let pick = gen_range_usize(rng, 0, to_visit.len());
            let ghost q0 = to_visit@;
            let id = to_visit.swap_remove(pick);
            let ghost v0 = visited@;
            let ghost t0 = in_tree@;
            let d = self.door_candidates[id];
            proof {
                lemma_max_room_id(cs, id as int);
                assert forall|x: usize| q0.contains(x) && x != id implies #[trigger] to_visit@.contains(x) by {
                    let j = choose|j: int| 0 <= j < q0.len() && q0[j] == x;
                    if j == pick {
                    } else if j == q0.len() - 1 {
                        assert(to_visit@[pick as int] == x);
                    } else {
                        assert(to_visit@[j] == x);
                    }
                }
            }
            let new_left = !visited[d.left_room_id];
            visited.set(d.left_room_id, true);
            let new_right = !visited[d.right_room_id];
            visited.set(d.right_room_id, true);
            if new_left || new_right {
                proof {
                    if t0[id as int] {
                        assert(on_side(cs[id as int], d.left_room_id as int));
                        assert(touches(cs, t0, d.left_room_id as int));
                        assert(on_side(cs[id as int], d.right_room_id as int));
                        assert(touches(cs, t0, d.right_room_id as int));
                        assert(v0[d.left_room_id as int]);
                        assert(v0[d.right_room_id as int]);
                    }
                    lemma_count_true_update(t0, id as int);
                    let v1 = v0.update(d.left_room_id as int, true);
                    if !new_left {
                        assert(v1 =~= v0);
                    } else {
                        lemma_count_true_update(v0, d.left_room_id as int);
                    }
                    let v2 = v1.update(d.right_room_id as int, true);
                    if !new_right {
                        assert(v2 =~= v1);
                    } else {
                        lemma_count_true_update(v1, d.right_room_id as int);
                    }
                    assert(visited@ == v2);
                    assert(count_true(visited@) >= count_true(v0) + 1);
                }
                in_tree.set(id, true);
                proof {
                    assert forall|r: int| 0 <= r < nr implies (visited@[r] <==> touches(cs, in_tree@, r)) by {
                        if touches(cs, in_tree@, r) {
                            let j = choose|j: int| 0 <= j < cs.len() && in_tree@[j] && #[trigger] on_side(cs[j], r);
                            if j != id {
                                assert(touches(cs, t0, r));
                            }
                        }
                        if v0[r] {
                            let j = choose|j: int| 0 <= j < cs.len() && t0[j] && #[trigger] on_side(cs[j], r);
                            assert(in_tree@[j]);
                        }
                        if r == d.left_room_id || r == d.right_room_id {
                            assert(on_side(cs[id as int], r));
                        }
                    }
                }
                let ghost q1 = to_visit@;
                let left_edges = &self.nodes[d.left_room_id].edges;
                let mut j: usize = 0;
                while j < left_edges.len()
                    invariant
                        j <= left_edges@.len(),
                        left_edges@ == room_edges(cs, d.left_room_id as int),
                        forall|x: usize| q1.contains(x) ==> #[trigger] to_visit@.contains(x),
                        forall|i: int| 0 <= i < to_visit@.len() ==> #[trigger] to_visit@[i] < n,
                        forall|i: int| 0 <= i < j ==> visited@[(#[trigger] left_edges@[i]).to_room_id as int] || to_visit@.contains(left_edges@[i].via),
                        visited@.len() == nr,
                        nr == self.nodes@.len(),
                        self.wf(),
                        cs == self.door_candidates@,
                        n == cs.len(),
                    decreases left_edges@.len() - j,
                {
                    let e = left_edges[j];
                    proof {
                        assert(room_edges(cs, d.left_room_id as int).contains(e)) by {
                            assert(room_edges(cs, d.left_room_id as int)[j as int] == e);
                        }
                        lemma_room_edges_sound(cs, d.left_room_id as int, e);
                        lemma_max_room_id(cs, e.via as int);
                    }
                    if !visited[e.to_room_id] {
                        let ghost qb = to_visit@;
                        to_visit.push(e.via);
                        proof {
                            assert(to_visit@[qb.len() as int] == e.via);
                            assert forall|x: usize| q1.contains(x) implies #[trigger] to_visit@.contains(x) by {
                                assert(qb.contains(x));
                                let i = choose|i: int| 0 <= i < qb.len() && qb[i] == x;
                                assert(to_visit@[i] == x);
                            }
                            assert forall|i: int| 0 <= i < j + 1 implies visited@[(#[trigger] left_edges@[i]).to_room_id as int]
                                || to_visit@.contains(left_edges@[i].via) by {
                                if i < j && !visited@[left_edges@[i].to_room_id as int] {
                                    let i2 = choose|i2: int| 0 <= i2 < qb.len() && qb[i2] == left_edges@[i].via;
                                    assert(to_visit@[i2] == left_edges@[i].via);
                                }
                            }
                        }
                    }
                    j = j + 1;
                }
                let ghost q2 = to_visit@;
                let right_edges = &self.nodes[d.right_room_id].edges;
                let mut j: usize = 0;
                while j < right_edges.len()
                    invariant
                        j <= right_edges@.len(),
                        right_edges@ == room_edges(cs, d.right_room_id as int),
                        forall|x: usize| q2.contains(x) ==> #[trigger] to_visit@.contains(x),
                        forall|i: int| 0 <= i < to_visit@.len() ==> #[trigger] to_visit@[i] < n,
                        forall|i: int| 0 <= i < j ==> visited@[(#[trigger] right_edges@[i]).to_room_id as int] || to_visit@.contains(right_edges@[i].via),
                        visited@.len() == nr,
                        nr == self.nodes@.len(),
                        self.wf(),
                        cs == self.door_candidates@,
                        n == cs.len(),
                    decreases right_edges@.len() - j,
                {
                    let e = right_edges[j];
                    proof {
                        assert(room_edges(cs, d.right_room_id as int).contains(e)) by {
                            assert(room_edges(cs, d.right_room_id as int)[j as int] == e);
                        }
                        lemma_room_edges_sound(cs, d.right_room_id as int, e);
                        lemma_max_room_id(cs, e.via as int);
                    }
                    if !visited[e.to_room_id] {
                        let ghost qb = to_visit@;
                        to_visit.push(e.via);
                        proof {
                            assert(to_visit@[qb.len() as int] == e.via);
                            assert forall|x: usize| q2.contains(x) implies #[trigger] to_visit@.contains(x) by {
                                assert(qb.contains(x));
                                let i = choose|i: int| 0 <= i < qb.len() && qb[i] == x;
                                assert(to_visit@[i] == x);
                            }
                            assert forall|i: int| 0 <= i < j + 1 implies visited@[(#[trigger] right_edges@[i]).to_room_id as int]
                                || to_visit@.contains(right_edges@[i].via) by {
                                if i < j && !visited@[right_edges@[i].to_room_id as int] {
                                    let i2 = choose|i2: int| 0 <= i2 < qb.len() && qb[i2] == right_edges@[i].via;
                                    assert(to_visit@[i2] == right_edges@[i].via);
                                }
                            }
                        }
                    }
                    j = j + 1;
                }
                proof {
                    assert forall|r: int, e: RoomEdge|
                        0 <= r < nr && visited@[r] && #[trigger] room_edges(cs, r).contains(e) implies visited@[e.to_room_id as int]
                            || to_visit@.contains(e.via) by {
                        if r == d.left_room_id {
                            let i = choose|i: int| 0 <= i < room_edges(cs, r).len() && room_edges(cs, r)[i] == e;
                            assert(left_edges@[i] == e);
                            if !visited@[e.to_room_id as int] {
                                assert(q2.contains(left_edges@[i].via));
                                assert(to_visit@.contains(left_edges@[i].via));
                            }
                            assert(visited@[e.to_room_id as int] || to_visit@.contains(e.via));
                        } else if r == d.right_room_id {
                            let i = choose|i: int| 0 <= i < room_edges(cs, r).len() && room_edges(cs, r)[i] == e;
                            assert(right_edges@[i] == e);
                            assert(visited@[e.to_room_id as int] || to_visit@.contains(e.via));
                        } else {
                            assert(v0[r]);
                            lemma_room_edges_sound(cs, r, e);
                            lemma_max_room_id(cs, e.via as int);
                            if !v0[e.to_room_id as int] {
                                assert(q0.contains(e.via));
                                if e.via == id {
                                    assert(on_side(cs[id as int], e.to_room_id as int));
                                } else {
                                    assert(to_visit@.contains(e.via)) by {
                                        assert(q1.contains(e.via));
                                        assert(q2.contains(e.via));
                                    }
                                }
                            }
                        }
                    }
                    assert(in_tree@[id as int]);
                    lemma_count_true_bound(visited@);
                }
            } else {
                proof {
                    assert(v0[d.left_room_id as int]);
                    assert(v0[d.right_room_id as int]);
                    assert(visited@ =~= v0);
                    assert forall|r: int, e: RoomEdge|
                        0 <= r < nr && visited@[r] && #[trigger] room_edges(cs, r).contains(e) implies visited@[e.to_room_id as int]
                            || to_visit@.contains(e.via) by {
                        lemma_room_edges_sound(cs, r, e);
                        assert(v0[r]);
                        if !v0[e.to_room_id as int] {
                            assert(q0.contains(e.via));
                            if e.via == id {
                                assert(on_side(cs[id as int], e.to_room_id as int));
                                assert(false);
                            } else {
                                assert(to_visit@.contains(e.via));
                            }
                        }
                    }
                    lemma_count_true_bound(visited@);
                    if count_true(v0) == 0 {
                        lemma_count_true_pos(v0, d.left_room_id as int);
                    }
                }
            }
        }
        proof {
            let t = in_tree@;
            assert(touched_rooms(cs, t, nr as int) =~= visited@);
            assert forall|k: int|
                0 <= k < cs.len() && (touches(cs, t, (#[trigger] cs[k]).left_room_id as int) || touches(
                    cs,
                    t,
                    cs[k].right_room_id as int,
                )) implies touches(cs, t, cs[k].left_room_id as int) && touches(cs, t, cs[k].right_room_id as int) by {
                lemma_room_edges_complete(cs, k);
                lemma_max_room_id(cs, k);
                let el = RoomEdge { to_room_id: cs[k].right_room_id, via: k as usize };
                let er = RoomEdge { to_room_id: cs[k].left_room_id, via: k as usize };
                assert(room_edges(cs, cs[k].left_room_id as int).contains(el));
                assert(room_edges(cs, cs[k].right_room_id as int).contains(er));
            }
        }
        in_tree
    }
}

proof fn lemma_count_true_all_false(s: Seq<bool>)
    requires
        forall|i: int| 0 <= i < s.len() ==> !s[i],
    ensures
        count_true(s) == 0,
    decreases s.len(),
{
    if s.len() > 0 {
        lemma_count_true_all_false(s.drop_last());
    }
}


/// The cells of a grid of size `s` in row-major order.
pub open spec fn row_major(s: Size) -> Seq<Coord> {
    Seq::new(size_count(s) as nat, |i: int| coord_at_index(s.width as int, i))
}

proof fn lemma_row_major_contains(s: Size, c: Coord)
    requires
        size_contains(s, c),
        s.width <= i32::MAX,
        s.height <= i32::MAX,
    ensures
        row_major(s)[index_of(s, c)] == c,
        0 <= index_of(s, c) < row_major(s).len(),
{
    lemma_index_bounds(s, c);
}

/// The cell `c` of the grid is floor.
pub open spec fn door_floor_at(g: Grid<DoorCell>, c: Coord) -> bool {
    g.contains(c) && g.at(c) == DoorCell::Floor
}

/// The four cells that share a side with `c` are floor cells of the grid.
pub open spec fn floor_all_around(g: Grid<DoorCell>, c: Coord) -> bool {
    forall|j: int|
        0 <= j < 4 ==> #[trigger] door_floor_at(g, coord_plus(c, cardinal_delta(cardinal_directions()[j])))
}

/// `c` is a floor cell surrounded by floor: a place for the stairs.
pub open spec fn stairs_site(g: Grid<DoorCell>, c: Coord) -> bool {
    door_floor_at(g, c) && floor_all_around(g, c)
}

/// The places for the stairs, as a set.
pub open spec fn stairs_site_of(g: Grid<DoorCell>) -> spec_fn(Coord) -> bool {
    |c: Coord| stairs_site(g, c)
}

/// `c` is a place for the stairs in another room than `stairs_room`: a place for the spawn.
pub open spec fn spawn_site(g: Grid<DoorCell>, floor: Grid<Option<FloorCell>>, stairs_room: usize, c: Coord) -> bool {
    &&& stairs_site(g, c)
    &&& match floor.at(c) {
        Some(f) => f.room_id != stairs_room,
        None => false,
    }
}

/// The places for the spawn, as a set.
pub open spec fn spawn_site_of(g: Grid<DoorCell>, floor: Grid<Option<FloorCell>>, stairs_room: usize) -> spec_fn(
    Coord,
) -> bool {
    |c: Coord| spawn_site(g, floor, stairs_room, c)
}

/// The squared distance between `c` and `s`.
pub open spec fn distance2(c: Coord, s: Coord) -> int {
    (c.x - s.x) * (c.x - s.x) + (c.y - s.y) * (c.y - s.y)
}

/// The cells of `v` come in order of decreasing distance from `s`.
pub open spec fn farthest_first(v: Seq<Coord>, s: Coord) -> bool {
    forall|i: int, j: int| 0 <= i < j < v.len() ==> distance2(#[trigger] v[i], s) >= distance2(#[trigger] v[j], s)
}

/// A quarter of `n`, and at least one.
pub open spec fn quarter(n: int) -> int {
    if n / 4 > 1 {
        n / 4
    } else {
        1
    }
}

fn is_floor_all_around(g: &Grid<DoorCell>, c: Coord) -> (b: bool)
    requires
        g.wf(),
        g.contains(c),
    ensures
        b == floor_all_around(*g, c),
{
    let directions = CardinalDirection::all();
    let mut k: usize = 0;
    while k < 4
        invariant
            g.wf(),
            g.contains(c),
            directions@ == cardinal_directions(),
            k <= 4,
            forall|j: int| 0 <= j < k ==> #[trigger] door_floor_at(*g, coord_plus(c, cardinal_delta(cardinal_directions()[j]))),
        decreases 4 - k,
    {
        let nei = c.plus(directions[k].coord());
        let mut ok = false;
        if let Some(cell) = g.get(nei) {
            if *cell == DoorCell::Floor {
                ok = true;
            }
        }
        if !ok {
            assert(!door_floor_at(*g, coord_plus(c, cardinal_delta(cardinal_directions()[k as int]))));
            return false;
        }
        k = k + 1;
    }
    true
}

fn distance_key(c: Coord, s: Coord) -> (d: u32)
    requires
        0 <= c.x < 46340,
        0 <= c.y < 46340,
        0 <= s.x < 46340,
        0 <= s.y < 46340,
    ensures
        d == distance2(c, s),
{
    let v = c.minus(s);
    assert(0 <= v.x * v.x <= 46339 * 46339) by (nonlinear_arith)
        requires
            -46339 <= v.x <= 46339,
    ;
    assert(0 <= v.y * v.y <= 46339 * 46339) by (nonlinear_arith)
        requires
            -46339 <= v.y <= 46339,
    ;
    v.magnitude2()
}

/// A place for the stairs: the places are gathered in row-major order, shuffled, and the
/// last one taken. `None` when there is none.
pub fn choose_stairs_coord(grid: &Grid<DoorCell>, rng: &mut Isaac64Rng) -> (r: Option<Coord>)
    requires
        grid.wf(),
    ensures
        r is None <==> !exists|c: Coord| #[trigger] stairs_site(*grid, c),
        r matches Some(c) ==> stairs_site(*grid, c),
{
    let n = grid.count();
    let ghost cells = row_major(grid.spec_size());
    let ghost pred = stairs_site_of(*grid);
    let mut candidates: Vec<Coord> = Vec::new();
    let mut i: usize = 0;
    while i < n
        invariant
            grid.wf(),
            n == size_count(grid.spec_size()),
            cells == row_major(grid.spec_size()),
            pred == stairs_site_of(*grid),
            i <= n,
            candidates@ == cells.take(i as int).filter(pred),
        decreases n - i,
    {
        let c = grid.coord_of_index(i);
        proof {
            assert(cells.take(i + 1) =~= cells.take(i as int).push(c));
            cells.take(i as int).lemma_filter_push(c, pred);
        }
        if *grid.get_checked(c) == DoorCell::Floor && is_floor_all_around(grid, c) {
            candidates.push(c);
        }
        i = i + 1;
    }
    proof {
        assert(cells.take(n as int) =~= cells);
        assert forall|c: Coord| #[trigger] stairs_site(*grid, c) implies candidates@.contains(c) by {
            lemma_row_major_contains(grid.spec_size(), c);
            cells.lemma_filter_contains(pred, index_of(grid.spec_size(), c));
        }
    }
    let ghost before = candidates@;
    shuffle(rng, &mut candidates);
    let ghost shuffled = candidates@;
    let r = candidates.pop();
    proof {
        if let Some(c) = r {
            assert(shuffled[shuffled.len() - 1] == c);
            vstd::seq_lib::to_multiset_contains(shuffled, c);
            vstd::seq_lib::to_multiset_contains(before, c);
            let i = choose|i: int| 0 <= i < before.len() && before[i] == c;
            cells.lemma_filter_pred(pred, i);
        }
    }
    r
}


/// A place for the spawn, far from the stairs at `stairs_coord` whose room is `stairs_room`:
/// the places are gathered in row-major order and ordered from the farthest to the nearest
/// (places at the same distance in reverse row-major order), and one of the first quarter of
/// them (at least one) is picked. `None` when there is no place. `floor` holds the rooms of
/// the floor cells.
pub fn choose_spawn_coord(
    grid: &Grid<DoorCell>,
    floor: &Grid<Option<FloorCell>>,
    stairs_room: usize,
    stairs_coord: Coord,
    rng: &mut Isaac64Rng,
) -> (r: Option<Coord>)
    requires
        grid.wf(),
        floor.wf(),
        floor.spec_size() == grid.spec_size(),
        grid.spec_size().width <= 46340,
        grid.spec_size().height <= 46340,
        grid.contains(stairs_coord),
        forall|c: Coord| #[trigger] door_floor_at(*grid, c) ==> floor.at(c) is Some,
    ensures
        r is None <==> !exists|c: Coord| #[trigger] spawn_site(*grid, *floor, stairs_room, c),
        r matches Some(c) ==> spawn_site(*grid, *floor, stairs_room, c) && exists|s: Seq<Coord>|
            #[trigger] s.to_multiset() == row_major(grid.spec_size()).filter(
                spawn_site_of(*grid, *floor, stairs_room),
            ).to_multiset() && farthest_first(s, stairs_coord) && exists|p: int|
                0 <= p < quarter(s.len() as int) && s[p] == c,
{
    let n = grid.count();
    let ghost cells = row_major(grid.spec_size());
    let ghost pred = spawn_site_of(*grid, *floor, stairs_room);
    let mut candidates: Vec<Coord> = Vec::new();
    let mut i: usize = 0;
    while i < n
        invariant
            grid.wf(),
            floor.wf(),
            floor.spec_size() == grid.spec_size(),
            forall|c: Coord| #[trigger] door_floor_at(*grid, c) ==> floor.at(c) is Some,
            n == size_count(grid.spec_size()),
            cells == row_major(grid.spec_size()),
            pred == spawn_site_of(*grid, *floor, stairs_room),
            i <= n,
            candidates@ == cells.take(i as int).filter(pred),
        decreases n - i,
    {
        let c = grid.coord_of_index(i);
        proof {
            assert(cells.take(i + 1) =~= cells.take(i as int).push(c));
            cells.take(i as int).lemma_filter_push(c, pred);
        }
        if *grid.get_checked(c) == DoorCell::Floor {
            proof {
                assert(door_floor_at(*grid, c));
            }
            let label = floor.get_checked(c).unwrap();
            if label.room_id != stairs_room && is_floor_all_around(grid, c) {
                candidates.push(c);
            }
        }
        i = i + 1;
    }
    proof {
        assert(cells.take(n as int) =~= cells);
        assert forall|c: Coord| #[trigger] spawn_site(*grid, *floor, stairs_room, c) implies candidates@.contains(c) by {
            lemma_row_major_contains(grid.spec_size(), c);
            cells.lemma_filter_contains(pred, index_of(grid.spec_size(), c));
        }
    }
    if candidates.len() == 0 {
        return None;
    }
    let ghost all = candidates@;
    let mut sorted: Vec<Coord> = Vec::new();
    assert(sorted@ =~= all.take(0));
    let mut k: usize = 0;
    while k < candidates.len()
        invariant
            grid.wf(),
            grid.spec_size().width <= 46340,
            grid.spec_size().height <= 46340,
            grid.contains(stairs_coord),
            all == candidates@,
            all == cells.filter(pred),
            pred == spawn_site_of(*grid, *floor, stairs_room),
            k <= all.len(),
            sorted@.to_multiset() == all.take(k as int).to_multiset(),
            farthest_first(sorted@, stairs_coord),
            forall|j: int| 0 <= j < sorted@.len() ==> grid.contains(#[trigger] sorted@[j]),
        decreases all.len() - k,
    {
        let c = candidates[k];
        proof {
            cells.lemma_filter_pred(pred, k as int);
        }
        let key = distance_key(c, stairs_coord);
        let mut pos: usize = 0;
        while pos < sorted.len() && distance_key(sorted[pos], stairs_coord) > key
            invariant
                grid.contains(stairs_coord),
                grid.spec_size().width <= 46340,
                grid.spec_size().height <= 46340,
                forall|j: int| 0 <= j < sorted@.len() ==> grid.contains(#[trigger] sorted@[j]),
                pos <= sorted@.len(),
                key == distance2(c, stairs_coord),
                forall|j: int| 0 <= j < pos ==> distance2(#[trigger] sorted@[j], stairs_coord) > key,
            decreases sorted@.len() - pos,
        {
            pos = pos + 1;
        }
        let ghost s0 = sorted@;
        proof {
            if pos < s0.len() {
                assert(grid.contains(s0[pos as int]));
                assert(distance2(s0[pos as int], stairs_coord) <= key);
            }
        }
        sorted.insert(pos, c);
        proof {
            vstd::seq_lib::to_multiset_insert(s0, pos as int, c);
            assert(all.take(k + 1) =~= all.take(k as int).push(c));
            vstd::seq_lib::to_multiset_build(all.take(k as int), c);
            assert forall|a: int, b: int| 0 <= a < b < sorted@.len() implies distance2(#[trigger] sorted@[a], stairs_coord)
                >= distance2(#[trigger] sorted@[b], stairs_coord) by {
                if b < pos {
                    assert(sorted@[a] == s0[a] && sorted@[b] == s0[b]);
                } else if b == pos {
                    assert(sorted@[a] == s0[a]);
                } else if a < pos {
                    assert(sorted@[a] == s0[a] && sorted@[b] == s0[b - 1]);
                } else if a == pos {
                    assert(sorted@[b] == s0[b - 1]);
                    assert(distance2(s0[pos as int], stairs_coord) <= key);
                } else {
                    assert(sorted@[a] == s0[a - 1] && sorted@[b] == s0[b - 1]);
                }
            }
            assert forall|j: int| 0 <= j < sorted@.len() implies grid.contains(#[trigger] sorted@[j]) by {
                if j < pos {
                    assert(sorted@[j] == s0[j]);
                } else if j > pos {
                    assert(sorted@[j] == s0[j - 1]);
                }
            }
        }
        k = k + 1;
    }
    proof {
        assert(all.take(all.len() as int) =~= all);
        vstd::seq_lib::to_multiset_len(sorted@);
        vstd::seq_lib::to_multiset_len(all);
    }
    let len = sorted.len();
    let q = if len / 4 > 1 {
        len / 4
    } else {
        1
    };
    let mut nearest_quarter: Vec<Coord> = Vec::new();
    let mut k: usize = 0;
    while k < q
        invariant
            q <= sorted@.len(),
            k <= q,
            nearest_quarter@ == sorted@.take(k as int),
        decreases q - k,
    {
        nearest_quarter.push(sorted[k]);
        assert(sorted@.take(k + 1) =~= sorted@.take(k as int).push(sorted@[k as int]));
        k = k + 1;
    }
    let r = choose_one(rng, &nearest_quarter);
    proof {
        if let Some(c) = r {
            let p = choose|p: int| 0 <= p < nearest_quarter@.len() && nearest_quarter@[p] == c;
            assert(sorted@[p] == c);
            assert(sorted@.contains(c));
            vstd::seq_lib::to_multiset_contains(sorted@, c);
            vstd::seq_lib::to_multiset_contains(all, c);
            let i = choose|i: int| 0 <= i < all.len() && all[i] == c;
            cells.lemma_filter_pred(pred, i);
            assert(sorted@.to_multiset() == cells.filter(pred).to_multiset());
        }
    }
    r
}


impl DoorCandidate {
    /// A random cell of the run.
    pub fn door_coord(&self, rng: &mut Isaac64Rng) -> (c: Coord)
        requires
            self.length >= 1,
            0 <= self.top_left.x,
            0 <= self.top_left.y,
            axis_get(self.top_left, other_axis(self.axis)) + self.length <= i32::MAX,
        ensures
            exists|t: int| 0 <= t < self.length && c == step_across(self.axis, self.top_left, t),
    {
        let offset = gen_range_i32(rng, 0, self.length as i32);
        let c = self.top_left.plus(Coord::new_axis(0, offset, self.axis));
        assert(c == step_across(self.axis, self.top_left, offset as int));
        c
    }
}

/// `c` is a wall of the hull with a floor cell on both sides along `axis`.
pub open spec fn hull_door_site(hull: Grid<HullCell>, axis: Axis, c: Coord) -> bool {
    &&& hull.contains(c)
    &&& hull.at(c) == HullCell::Wall
    &&& is_floor(hull, step_along(axis, c, -1))
    &&& is_floor(hull, step_along(axis, c, 1))
}

/// The cell of the door grid that a hull cell starts as.
pub open spec fn door_cell_of(c: HullCell) -> DoorCell {
    match c {
        HullCell::Floor => DoorCell::Floor,
        HullCell::Wall => DoorCell::Wall,
        HullCell::Space => DoorCell::Space,
    }
}

fn door_cell(c: &HullCell) -> (r: DoorCell)
    ensures
        r == door_cell_of(*c),
{
    match c {
        HullCell::Floor => DoorCell::Floor,
        HullCell::Wall => DoorCell::Wall,
        HullCell::Space => DoorCell::Space,
    }
}

/// The cell `c` of the door grid keeps what the hull has there: space stays space, a wall
/// stays a wall or becomes a door, and floor stays floor or holds the stairs or the spawn.
pub open spec fn keeps_hull(hull: Grid<HullCell>, g: Grid<DoorCell>, c: Coord) -> bool {
    match hull.at(c) {
        HullCell::Space => g.at(c) == DoorCell::Space,
        HullCell::Wall => g.at(c) == DoorCell::Wall || g.at(c) is Door,
        HullCell::Floor => g.at(c) == DoorCell::Floor || g.at(c) == DoorCell::Stairs || g.at(c)
            == DoorCell::Spawn,
    }
}

proof fn lemma_run_cells_in_all(cs: Seq<DoorCandidate>, k: int, t: int)
    requires
        0 <= k < cs.len(),
        0 <= t < cs[k].length,
    ensures
        all_run_cells(cs).contains(step_across(cs[k].axis, cs[k].top_left, t)),
    decreases cs.len(),
{
    let x = step_across(cs[k].axis, cs[k].top_left, t);
    let a = all_run_cells(cs.drop_last());
    if k < cs.len() - 1 {
        lemma_run_cells_in_all(cs.drop_last(), k, t);
        let i = choose|i: int| 0 <= i < a.len() && a[i] == x;
        assert(all_run_cells(cs)[i] == x);
    } else {
        assert(run_cells(cs.last())[t] == x);
        assert(all_run_cells(cs)[a.len() + t] == x);
    }
}

proof fn lemma_run_cell_is_site(
    hull: Grid<HullCell>,
    floor: Grid<Option<FloorCell>>,
    axis: Axis,
    cs: Seq<DoorCandidate>,
    k: int,
    t: int,
)
    requires
        all_run_cells(cs) == scan_order(hull.spec_size(), axis).filter(door_site_of(hull, floor, axis)),
        0 <= k < cs.len(),
        0 <= t < cs[k].length,
    ensures
        door_site(hull, floor, axis, step_across(cs[k].axis, cs[k].top_left, t)),
{
    let x = step_across(cs[k].axis, cs[k].top_left, t);
    lemma_run_cells_in_all(cs, k, t);
    let f = scan_order(hull.spec_size(), axis).filter(door_site_of(hull, floor, axis));
    let i = choose|i: int| 0 <= i < f.len() && f[i] == x;
    scan_order(hull.spec_size(), axis).lemma_filter_pred(door_site_of(hull, floor, axis), i);
}

proof fn lemma_scan_contains(s: Size, axis: Axis, c: Coord)
    requires
        size_contains(s, c),
    ensures
        scan_order(s, axis).contains(c),
{
    let b = size_along(s, other_axis(axis));
    let a = size_along(s, axis);
    let i = axis_get(c, axis);
    let j = axis_get(c, other_axis(axis));
    assert(0 <= i < a && 0 <= j < b);
    assert(i * b + j < a * b) by (nonlinear_arith)
        requires
            0 <= i < a,
            0 <= j < b,
    ;
    assert(i * b + j >= 0) by (nonlinear_arith)
        requires
            0 <= i,
            0 <= j,
            0 <= b,
    ;
    vstd::arithmetic::div_mod::lemma_fundamental_div_mod_converse(i * b + j, b, i, j);
    assert(scan_order(s, axis)[i * b + j] == c);
}

/// `c` is a floor cell of the hull whose four neighbours sharing a side are floor cells too: a
/// place where the stairs or the spawn can go.
pub open spec fn hull_stairs_site(hull: Grid<HullCell>, c: Coord) -> bool {
    &&& is_floor(hull, c)
    &&& forall|j: int|
        0 <= j < 4 ==> #[trigger] is_floor(hull, coord_plus(c, cardinal_delta(cardinal_directions()[j])))
}

proof fn lemma_door_grid_sites(hull: Grid<HullCell>, g: Grid<DoorCell>)
    requires
        g.spec_size() == hull.spec_size(),
        forall|c: Coord|
            #[trigger] g.contains(c) ==> keeps_hull(hull, g, c) && g.at(c) != DoorCell::Stairs && g.at(c)
                != DoorCell::Spawn,
    ensures
        forall|c: Coord| door_floor_at(g, c) <==> #[trigger] is_floor(hull, c),
        forall|c: Coord| stairs_site(g, c) <==> #[trigger] hull_stairs_site(hull, c),
{
    assert forall|c: Coord| door_floor_at(g, c) <==> #[trigger] is_floor(hull, c) by {
        if g.contains(c) {
            assert(keeps_hull(hull, g, c));
        }
    }
    assert forall|c: Coord| stairs_site(g, c) <==> #[trigger] hull_stairs_site(hull, c) by {
        assert forall|j: int| 0 <= j < 4 implies (#[trigger] door_floor_at(g, coord_plus(c, cardinal_delta(cardinal_directions()[j])))
            <==> is_floor(hull, coord_plus(c, cardinal_delta(cardinal_directions()[j])))) by {
            let m = coord_plus(c, cardinal_delta(cardinal_directions()[j]));
            if g.contains(m) {
                assert(keeps_hull(hull, g, m));
            }
        }
        if g.contains(c) {
            assert(keeps_hull(hull, g, c));
        }
    }
}

proof fn lemma_neighbour_same_room(hull: Grid<HullCell>, p: Coord, j: int)
    requires
        hull.wf(),
        0 <= j < 4,
        is_floor(hull, p),
        is_floor(hull, coord_plus(p, cardinal_delta(cardinal_directions()[j]))),
    ensures
        room_of(hull, p) == room_of(hull, coord_plus(p, cardinal_delta(cardinal_directions()[j]))),
{
    let m = coord_plus(p, cardinal_delta(cardinal_directions()[j]));
    lemma_cardinal_neighbours(p, m);
    assert(is_cardinal_neighbour(p, m));
    lemma_reach_refl(floor_of(hull), false, p);
    lemma_reach_step(floor_of(hull), false, p, p, m);
    law_rooms_are_floor_regions(hull, p, m);
}

/// Doors for the hull: its floor is split into rooms; the runs of door sites along each axis
/// become candidates; a random tree of candidates joining the rooms gets a door each, in a
/// random cell of the run, and so does half (rounded up) of the other candidates, taken in a
/// random order; then the stairs and the spawn are placed (see `choose_stairs_coord` and
/// `choose_spawn_coord`). `None` when there is no place for one of them: that is, unless two
/// floor cells surrounded by floor lie in different rooms, whatever the draws. The hull must
/// have a door site and fit in 46340 cells each way.
/// One of the cells of the run of `d` holds a door in `g`.
pub open spec fn door_in_run(g: Grid<DoorCell>, d: DoorCandidate) -> bool {
    exists|t: int| 0 <= t < d.length && (#[trigger] g.at(step_across(d.axis, d.top_left, t))) is Door
}

/// `c` is a cell of one of the runs of `cs`.
pub open spec fn on_some_run(cs: Seq<DoorCandidate>, c: Coord) -> bool {
    exists|k: int, t: int|
        0 <= k < cs.len() && 0 <= t < cs[k].length && c == #[trigger] step_across(cs[k].axis, cs[k].top_left, t)
}

/// The numbers of the runs that `tree` leaves out, in increasing order.
pub open spec fn non_tree(tree: Seq<bool>) -> Seq<usize>
    decreases tree.len(),
{
    if tree.len() == 0 {
        Seq::empty()
    } else if tree.last() {
        non_tree(tree.drop_last())
    } else {
        non_tree(tree.drop_last()).push((tree.len() - 1) as usize)
    }
}

/// The run `d` has at least one cell, lies in the hull, and each of its cells is a wall of the
/// hull between two floor cells along its axis.
pub open spec fn run_on_walls(hull: Grid<HullCell>, d: DoorCandidate) -> bool {
    &&& d.length >= 1
    &&& candidate_in(hull.spec_size(), d)
    &&& forall|t: int| 0 <= t < d.length ==> #[trigger] hull_door_site(hull, d.axis, step_across(d.axis, d.top_left, t))
}

/// Each cell of the run `d` is a wall of the hull between a cell of the room `d.left_room_id`
/// and a cell of the room `d.right_room_id`.
pub open spec fn run_between_rooms(hull: Grid<HullCell>, d: DoorCandidate) -> bool {
    &&& run_on_walls(hull, d)
    &&& forall|t: int|
        0 <= t < d.length ==> room_of(hull, step_along(d.axis, #[trigger] step_across(d.axis, d.top_left, t), -1))
            == d.left_room_id && room_of(hull, step_along(d.axis, step_across(d.axis, d.top_left, t), 1))
            == d.right_room_id
}

/// The runs `cs` are those of the hull: every wall between two floor cells lies on a run of its
/// axis, each run lies between two rooms, and no run is continued by the next one of its axis.
#[verifier::opaque]
pub open spec fn door_runs_of(hull: Grid<HullCell>, cs: Seq<DoorCandidate>) -> bool {
    &&& forall|k: int| 0 <= k < cs.len() ==> run_between_rooms(hull, #[trigger] cs[k])
    &&& forall|axis: Axis, c: Coord|
        #[trigger] hull_door_site(hull, axis, c) ==> exists|k: int, t: int|
            0 <= k < cs.len() && 0 <= t < cs[k].length && cs[k].axis == axis && c == #[trigger] step_across(
                cs[k].axis,
                cs[k].top_left,
                t,
            )
    &&& forall|k: int|
        0 < k < cs.len() && cs[k - 1].axis == cs[k].axis ==> !continues(
            cs[k - 1],
            (#[trigger] cs[k]).top_left,
            cs[k].left_room_id,
            cs[k].right_room_id,
        )
}

/// `tree` marks some of the runs `cs`: at least one; a run with a room that the marked runs
/// touch has both its rooms touched; and no more runs are marked than rooms touched among the
/// first `n`.
#[verifier::opaque]
pub open spec fn tree_marks(cs: Seq<DoorCandidate>, tree: Seq<bool>, n: int) -> bool {
    &&& tree.len() == cs.len()
    &&& exists|k: int| 0 <= k < tree.len() && tree[k]
    &&& forall|k: int|
        0 <= k < cs.len() && (touches(cs, tree, (#[trigger] cs[k]).left_room_id as int) || touches(
            cs,
            tree,
            cs[k].right_room_id as int,
        )) ==> touches(cs, tree, cs[k].left_room_id as int) && touches(cs, tree, cs[k].right_room_id as int)
    &&& count_true(tree) <= count_true(touched_rooms(cs, tree, n))
}

/// Where the doors of `g` go: the runs `cs` of the hull, the runs `tree` marks (a tree over the
/// rooms) each hold a door, the other runs are reordered as `ex` and the first half (rounded
/// up) of them hold a door, and every door stands on a run.
pub open spec fn doors_spread(
    hull: Grid<HullCell>,
    g: Grid<DoorCell>,
    cs: Seq<DoorCandidate>,
    tree: Seq<bool>,
    ex: Seq<usize>,
) -> bool {
    &&& door_runs_of(hull, cs)
    &&& tree_marks(cs, tree, max_room_id(cs) + 1)
    &&& ex.to_multiset() == non_tree(tree).to_multiset()
    &&& doors_placed(g, cs, tree, ex)
}

/// In `g` each run of `cs` that `tree` marks holds a door, so does each of the first half
/// (rounded up) of the runs numbered by `ex`, and every door stands on a run.
#[verifier::opaque]
pub open spec fn doors_placed(g: Grid<DoorCell>, cs: Seq<DoorCandidate>, tree: Seq<bool>, ex: Seq<usize>) -> bool {
    &&& forall|k: int| 0 <= k < cs.len() && tree[k] ==> #[trigger] door_in_run(g, cs[k])
    &&& forall|j: int| 0 <= j < (ex.len() + 1) / 2 ==> #[trigger] door_in_run(g, cs[ex[j] as int])
    &&& forall|c: Coord| g.contains(c) && (#[trigger] g.at(c)) is Door ==> on_some_run(cs, c)
}

/// `after` is `before` with the cell `c`, which held no door, replaced by another that holds
/// none either.
pub open spec fn non_door_set(before: Grid<DoorCell>, after: Grid<DoorCell>, c: Coord) -> bool {
    &&& after.spec_size() == before.spec_size()
    &&& !(before.at(c) is Door)
    &&& !(after.at(c) is Door)
    &&& forall|d: Coord| #![trigger after.at(d)] after.contains(d) && d != c ==> after.at(d) == before.at(d)
}

proof fn lemma_doors_kept(
    hull: Grid<HullCell>,
    before: Grid<DoorCell>,
    after: Grid<DoorCell>,
    c: Coord,
    cs: Seq<DoorCandidate>,
    tree: Seq<bool>,
    ex: Seq<usize>,
)
    requires
        non_door_set(before, after, c),
        before.spec_size() == hull.spec_size(),
        forall|k: int| 0 <= k < cs.len() ==> run_on_walls(hull, #[trigger] cs[k]),
        forall|j: int| 0 <= j < ex.len() ==> #[trigger] ex[j] < cs.len(),
        doors_placed(before, cs, tree, ex),
    ensures
        doors_placed(after, cs, tree, ex),
{
    reveal(doors_placed);
    assert forall|d: DoorCandidate| run_on_walls(hull, d) && door_in_run(before, d) implies #[trigger] door_in_run(after, d) by {
        let t = choose|t: int| 0 <= t < d.length && (#[trigger] before.at(step_across(d.axis, d.top_left, t))) is Door;
        let x = step_across(d.axis, d.top_left, t);
        assert(hull_door_site(hull, d.axis, x));
        assert(after.contains(x));
        assert(x != c);
        assert(after.at(x) is Door);
    }
    assert forall|k: int| 0 <= k < cs.len() && tree[k] implies #[trigger] door_in_run(after, cs[k]) by {
        assert(door_in_run(before, cs[k]));
    }
    assert forall|j: int| 0 <= j < (ex.len() + 1) / 2 implies #[trigger] door_in_run(after, cs[ex[j] as int]) by {
        assert(door_in_run(before, cs[ex[j] as int]));
    }
    assert forall|x: Coord| after.contains(x) && (#[trigger] after.at(x)) is Door implies on_some_run(cs, x) by {
        assert(x != c);
        assert(before.at(x) is Door);
        assert(before.contains(x));
    }
}

proof fn lemma_all_run_cells_member(cs: Seq<DoorCandidate>, x: Coord)
    requires
        all_run_cells(cs).contains(x),
    ensures
        exists|k: int, t: int|
            0 <= k < cs.len() && 0 <= t < cs[k].length && x == #[trigger] step_across(cs[k].axis, cs[k].top_left, t),
    decreases cs.len(),
{
    let a = all_run_cells(cs.drop_last());
    let i = choose|i: int| 0 <= i < all_run_cells(cs).len() && all_run_cells(cs)[i] == x;
    if i < a.len() {
        assert(a[i] == x);
        lemma_all_run_cells_member(cs.drop_last(), x);
        let (k, t) = choose|k: int, t: int|
            0 <= k < cs.drop_last().len() && 0 <= t < cs.drop_last()[k].length && x == #[trigger] step_across(
                cs.drop_last()[k].axis,
                cs.drop_last()[k].top_left,
                t,
            );
        assert(cs[k] == cs.drop_last()[k]);
    } else {
        let t = i - a.len();
        assert(run_cells(cs.last())[t] == x);
        assert(x == step_across(cs[cs.len() - 1].axis, cs[cs.len() - 1].top_left, t));
    }
}

/// The runs found along `axis` lie between the rooms they name.
proof fn lemma_runs_between_rooms(hull: Grid<HullCell>, floor: Grid<Option<FloorCell>>, axis: Axis, ds: Seq<DoorCandidate>)
    requires
        hull.wf(),
        size_count(hull.spec_size()) <= usize::MAX,
        floor.wf(),
        floor.spec_size() == hull.spec_size(),
        forall|x: Coord|
            #![trigger floor.at(x)]
            floor.contains(x) ==> floor.at(x) == if is_floor(hull, x) {
                Some(FloorCell { room_id: room_of(hull, x) as usize })
            } else {
                None
            },
        all_run_cells(ds) == scan_order(hull.spec_size(), axis).filter(door_site_of(hull, floor, axis)),
        forall|k: int| 0 <= k < ds.len() ==> candidate_fits(floor, axis, #[trigger] ds[k]),
        forall|k: int| 0 <= k < ds.len() ==> candidate_in(hull.spec_size(), #[trigger] ds[k]),
    ensures
        forall|k: int| 0 <= k < ds.len() ==> run_between_rooms(hull, #[trigger] ds[k]),
{
    lemma_rooms_before_bound(hull, size_count(hull.spec_size()));
    assert forall|k: int| 0 <= k < ds.len() implies run_between_rooms(hull, #[trigger] ds[k]) by {
        let d = ds[k];
        assert(candidate_fits(floor, axis, d));
        assert forall|t: int| 0 <= t < d.length implies hull_door_site(hull, d.axis, #[trigger] step_across(d.axis, d.top_left, t))
            && room_of(hull, step_along(d.axis, step_across(d.axis, d.top_left, t), -1)) == d.left_room_id
            && room_of(hull, step_along(d.axis, step_across(d.axis, d.top_left, t), 1)) == d.right_room_id by {
            let x = step_across(d.axis, d.top_left, t);
            lemma_run_cell_is_site(hull, floor, axis, ds, k, t);
            let l = step_along(axis, x, -1);
            let r = step_along(axis, x, 1);
            assert(label_at(floor, l) == Some(FloorCell { room_id: d.left_room_id }));
            assert(label_at(floor, r) == Some(FloorCell { room_id: d.right_room_id }));
            assert(floor.contains(l) && floor.contains(r));
            assert(is_floor(hull, l));
            assert(is_floor(hull, r));
            law_rooms_are_floor_regions(hull, l, l);
            law_rooms_are_floor_regions(hull, r, r);
            assert(floor.at(l) == Some(FloorCell { room_id: room_of(hull, l) as usize }));
            assert(floor.at(r) == Some(FloorCell { room_id: room_of(hull, r) as usize }));
            assert(room_of(hull, l) as usize == d.left_room_id);
            assert(room_of(hull, r) as usize == d.right_room_id);
        }
        assert forall|t: int| 0 <= t < d.length implies #[trigger] hull_door_site(hull, d.axis, step_across(d.axis, d.top_left, t)) by {
            assert(hull_door_site(hull, d.axis, step_across(d.axis, d.top_left, t)));
        }
    }
}

/// Every wall between two floor cells along `axis` lies on one of the runs found along it.
proof fn lemma_runs_cover(hull: Grid<HullCell>, floor: Grid<Option<FloorCell>>, axis: Axis, ds: Seq<DoorCandidate>, c: Coord)
    requires
        hull.wf(),
        floor.wf(),
        floor.spec_size() == hull.spec_size(),
        forall|x: Coord|
            #![trigger floor.at(x)]
            floor.contains(x) ==> floor.at(x) == if is_floor(hull, x) {
                Some(FloorCell { room_id: room_of(hull, x) as usize })
            } else {
                None
            },
        all_run_cells(ds) == scan_order(hull.spec_size(), axis).filter(door_site_of(hull, floor, axis)),
        forall|k: int| 0 <= k < ds.len() ==> candidate_fits(floor, axis, #[trigger] ds[k]),
        hull_door_site(hull, axis, c),
    ensures
        exists|k: int, t: int|
            0 <= k < ds.len() && 0 <= t < ds[k].length && ds[k].axis == axis && c == #[trigger] step_across(
                ds[k].axis,
                ds[k].top_left,
                t,
            ),
{
    let l = step_along(axis, c, -1);
    let r = step_along(axis, c, 1);
    assert(floor.at(l) is Some);
    assert(floor.at(r) is Some);
    assert(door_site(hull, floor, axis, c));
    lemma_scan_contains(hull.spec_size(), axis, c);
    let sc = scan_order(hull.spec_size(), axis);
    let i = choose|i: int| 0 <= i < sc.len() && sc[i] == c;
    sc.lemma_filter_contains(door_site_of(hull, floor, axis), i);
    lemma_all_run_cells_member(ds, c);
    let (k, t) = choose|k: int, t: int|
        0 <= k < ds.len() && 0 <= t < ds[k].length && c == #[trigger] step_across(ds[k].axis, ds[k].top_left, t);
    assert(candidate_fits(floor, axis, ds[k]));
}


/// `after` is `before` with a door in the cell `c` and every other cell unchanged.
pub open spec fn door_set(before: Grid<DoorCell>, after: Grid<DoorCell>, c: Coord) -> bool {
    &&& after.spec_size() == before.spec_size()
    &&& after.contains(c)
    &&& after.at(c) is Door
    &&& forall|d: Coord| #![trigger after.at(d)] after.contains(d) && d != c ==> after.at(d) == before.at(d)
}

proof fn lemma_door_persists(hull: Grid<HullCell>, before: Grid<DoorCell>, after: Grid<DoorCell>, c: Coord, d: DoorCandidate)
    requires
        door_set(before, after, c),
        before.spec_size() == hull.spec_size(),
        run_on_walls(hull, d),
        door_in_run(before, d),
    ensures
        door_in_run(after, d),
{
    let t = choose|t: int| 0 <= t < d.length && (#[trigger] before.at(step_across(d.axis, d.top_left, t))) is Door;
    let x = step_across(d.axis, d.top_left, t);
    assert(hull_door_site(hull, d.axis, x));
    assert(after.contains(x));
    assert(after.at(x) is Door);
}

proof fn lemma_non_tree_bound(tree: Seq<bool>, j: int)
    requires
        0 <= j < non_tree(tree).len(),
    ensures
        non_tree(tree)[j] < tree.len(),
    decreases tree.len(),
{
    if tree.len() > 0 {
        let r = non_tree(tree.drop_last());
        if j < r.len() {
            lemma_non_tree_bound(tree.drop_last(), j);
        }
    }
}

/// Puts a door in a random cell of each run that `in_tree` marks, then in a random cell of the
/// first half (rounded up) of the other runs, shuffled.
fn place_doors(
    hull: &Grid<HullCell>,
    cs: &Vec<DoorCandidate>,
    in_tree: &Vec<bool>,
    door_grid: &mut Grid<DoorCell>,
    rng: &mut Isaac64Rng,
)
    requires
        hull.wf(),
        old(door_grid).wf(),
        old(door_grid).spec_size() == hull.spec_size(),
        in_tree@.len() == cs@.len(),
        forall|k: int| 0 <= k < cs@.len() ==> run_on_walls(*hull, #[trigger] cs@[k]),
        forall|c: Coord|
            #[trigger] old(door_grid).contains(c) ==> keeps_hull(*hull, *old(door_grid), c) && old(door_grid).at(c)
                != DoorCell::Stairs && old(door_grid).at(c) != DoorCell::Spawn && !(old(door_grid).at(c) is Door),
    ensures
        final(door_grid).wf(),
        final(door_grid).spec_size() == hull.spec_size(),
        forall|c: Coord|
            #[trigger] final(door_grid).contains(c) ==> keeps_hull(*hull, *final(door_grid), c) && final(door_grid).at(c)
                != DoorCell::Stairs && final(door_grid).at(c) != DoorCell::Spawn,
        forall|k: int| 0 <= k < cs@.len() && in_tree@[k] ==> #[trigger] door_in_run(*final(door_grid), cs@[k]),
        exists|ex: Seq<usize>|
            #![trigger ex.to_multiset()]
            ex.to_multiset() == non_tree(in_tree@).to_multiset() && forall|j: int|
                0 <= j < (ex.len() + 1) / 2 ==> #[trigger] door_in_run(*final(door_grid), cs@[ex[j] as int]),
        forall|c: Coord|
            final(door_grid).contains(c) && (#[trigger] final(door_grid).at(c)) is Door ==> on_some_run(cs@, c),
{
    let n = cs.len();
    let ghost size = hull.spec_size();
    let mut extra: Vec<usize> = Vec::new();
    let mut id: usize = 0;
    while id < n
        invariant
            n == in_tree@.len(),
            id <= n,
            extra@ == non_tree(in_tree@.take(id as int)),
        decreases n - id,
    {
        proof {
            let s = in_tree@.take(id + 1);
            assert(s.drop_last() =~= in_tree@.take(id as int));
            assert(s.last() == in_tree@[id as int]);
        }
        if !in_tree[id] {
            extra.push(id);
        }
        id = id + 1;
    }
    proof {
        assert(in_tree@.take(n as int) =~= in_tree@);
    }
    let ghost e0 = extra@;
    shuffle(rng, &mut extra);
    proof {
        assert forall|j: int| 0 <= j < extra@.len() implies #[trigger] extra@[j] < n by {
            let x = extra@[j];
            assert(extra@.contains(x));
            vstd::seq_lib::to_multiset_contains(extra@, x);
            vstd::seq_lib::to_multiset_contains(e0, x);
            let i = choose|i: int| 0 <= i < e0.len() && e0[i] == x;
            lemma_non_tree_bound(in_tree@, i);
        }
    }
    let num_extra = extra.len() / 2 + extra.len() % 2;
    let mut t: usize = 0;
    while t < n
        invariant
            t <= n,
            n == cs@.len(),
            n == in_tree@.len(),
            hull.wf(),
            door_grid.wf(),
            door_grid.spec_size() == size,
            size == hull.spec_size(),
            forall|k: int| 0 <= k < cs@.len() ==> run_on_walls(*hull, #[trigger] cs@[k]),
            forall|c: Coord|
                #[trigger] door_grid.contains(c) ==> keeps_hull(*hull, *door_grid, c) && door_grid.at(c)
                    != DoorCell::Stairs && door_grid.at(c) != DoorCell::Spawn,
            forall|k: int| 0 <= k < t && in_tree@[k] ==> #[trigger] door_in_run(*door_grid, cs@[k]),
            forall|c: Coord| door_grid.contains(c) && (#[trigger] door_grid.at(c)) is Door ==> on_some_run(cs@, c),
        decreases n - t,
    {
        if in_tree[t] {
            let ghost before = *door_grid;
            place_door(hull, cs, t, door_grid, rng);
            proof {
                let c = choose|c: Coord| #[trigger] door_set(before, *door_grid, c) && on_some_run(cs@, c)
                    && door_in_run(*door_grid, cs@[t as int]);
                assert forall|k: int| 0 <= k < t + 1 && in_tree@[k] implies #[trigger] door_in_run(*door_grid, cs@[k]) by {
                    if k < t {
                        lemma_door_persists(*hull, before, *door_grid, c, cs@[k]);
                    }
                }
            }
        }
        t = t + 1;
    }
    let mut t: usize = 0;
    while t < num_extra
        invariant
            t <= num_extra,
            num_extra <= extra@.len(),
            forall|j: int| 0 <= j < extra@.len() ==> #[trigger] extra@[j] < n,
            n == cs@.len(),
            n == in_tree@.len(),
            hull.wf(),
            door_grid.wf(),
            door_grid.spec_size() == size,
            size == hull.spec_size(),
            forall|k: int| 0 <= k < cs@.len() ==> run_on_walls(*hull, #[trigger] cs@[k]),
            forall|c: Coord|
                #[trigger] door_grid.contains(c) ==> keeps_hull(*hull, *door_grid, c) && door_grid.at(c)
                    != DoorCell::Stairs && door_grid.at(c) != DoorCell::Spawn,
            forall|k: int| 0 <= k < n && in_tree@[k] ==> #[trigger] door_in_run(*door_grid, cs@[k]),
            forall|j: int| 0 <= j < t ==> #[trigger] door_in_run(*door_grid, cs@[extra@[j] as int]),
            forall|c: Coord| door_grid.contains(c) && (#[trigger] door_grid.at(c)) is Door ==> on_some_run(cs@, c),
        decreases num_extra - t,
    {
        let id = extra[t];
        let ghost before = *door_grid;
        place_door(hull, cs, id, door_grid, rng);
        proof {
            let c = choose|c: Coord| #[trigger] door_set(before, *door_grid, c) && on_some_run(cs@, c)
                && door_in_run(*door_grid, cs@[id as int]);
            assert forall|k: int| 0 <= k < n && in_tree@[k] implies #[trigger] door_in_run(*door_grid, cs@[k]) by {
                lemma_door_persists(*hull, before, *door_grid, c, cs@[k]);
            }
            assert forall|j: int| 0 <= j < t + 1 implies #[trigger] door_in_run(*door_grid, cs@[extra@[j] as int]) by {
                if j < t {
                    lemma_door_persists(*hull, before, *door_grid, c, cs@[extra@[j] as int]);
                }
            }
        }
        t = t + 1;
    }
    proof {
        assert(num_extra == (extra@.len() + 1) / 2);
        assert(extra@.to_multiset() == non_tree(in_tree@).to_multiset());
    }
}

/// Puts a door in a random cell of the run `cs[id]`.
fn place_door(
    hull: &Grid<HullCell>,
    cs: &Vec<DoorCandidate>,
    id: usize,
    door_grid: &mut Grid<DoorCell>,
    rng: &mut Isaac64Rng,
)
    requires
        hull.wf(),
        id < cs@.len(),
        old(door_grid).wf(),
        old(door_grid).spec_size() == hull.spec_size(),
        run_on_walls(*hull, cs@[id as int]),
        forall|c: Coord|
            #[trigger] old(door_grid).contains(c) ==> keeps_hull(*hull, *old(door_grid), c) && old(door_grid).at(c)
                != DoorCell::Stairs && old(door_grid).at(c) != DoorCell::Spawn,
        forall|c: Coord|
            old(door_grid).contains(c) && (#[trigger] old(door_grid).at(c)) is Door ==> on_some_run(cs@, c),
    ensures
        final(door_grid).wf(),
        final(door_grid).spec_size() == hull.spec_size(),
        forall|c: Coord|
            #[trigger] final(door_grid).contains(c) ==> keeps_hull(*hull, *final(door_grid), c) && final(door_grid).at(c)
                != DoorCell::Stairs && final(door_grid).at(c) != DoorCell::Spawn,
        forall|c: Coord|
            final(door_grid).contains(c) && (#[trigger] final(door_grid).at(c)) is Door ==> on_some_run(cs@, c),
        exists|c: Coord|
            #[trigger] door_set(*old(door_grid), *final(door_grid), c) && on_some_run(cs@, c) && door_in_run(
                *final(door_grid),
                cs@[id as int],
            ),
{
    let d = cs[id];
    let c = d.door_coord(rng);
    let ghost tt = choose|tt: int| 0 <= tt < d.length && c == step_across(d.axis, d.top_left, tt);
    proof {
        assert(hull_door_site(*hull, d.axis, step_across(d.axis, d.top_left, tt)));
    }
    let ghost before = *door_grid;
    door_grid.set(c, DoorCell::Door(d.axis));
    proof {
        assert forall|x: Coord| #[trigger] door_grid.contains(x) implies keeps_hull(*hull, *door_grid, x)
            && door_grid.at(x) != DoorCell::Stairs && door_grid.at(x) != DoorCell::Spawn by {
            assert(before.contains(x));
        }
        assert(on_some_run(cs@, c)) by {
            assert(c == step_across(cs@[id as int].axis, cs@[id as int].top_left, tt));
        }
        assert forall|x: Coord| door_grid.contains(x) && (#[trigger] door_grid.at(x)) is Door implies on_some_run(cs@, x) by {
            if x != c {
                assert(before.contains(x));
                assert(before.at(x) is Door);
            }
        }
        assert(door_grid.at(step_across(d.axis, d.top_left, tt)) is Door);
        assert(door_in_run(*door_grid, cs@[id as int]));
        assert(door_set(before, *door_grid, c));
    }
}

/// The runs found along X followed by those found along Y are the runs of the hull.
proof fn lemma_door_runs_of(hull: Grid<HullCell>, floor: Grid<Option<FloorCell>>, dx: Seq<DoorCandidate>, dy: Seq<DoorCandidate>)
    requires
        hull.wf(),
        size_count(hull.spec_size()) <= usize::MAX,
        floor.wf(),
        floor.spec_size() == hull.spec_size(),
        forall|x: Coord|
            #![trigger floor.at(x)]
            floor.contains(x) ==> floor.at(x) == if is_floor(hull, x) {
                Some(FloorCell { room_id: room_of(hull, x) as usize })
            } else {
                None
            },
        all_run_cells(dx) == scan_order(hull.spec_size(), Axis::X).filter(door_site_of(hull, floor, Axis::X)),
        all_run_cells(dy) == scan_order(hull.spec_size(), Axis::Y).filter(door_site_of(hull, floor, Axis::Y)),
        forall|k: int| 0 <= k < dx.len() ==> candidate_fits(floor, Axis::X, #[trigger] dx[k]),
        forall|k: int| 0 <= k < dy.len() ==> candidate_fits(floor, Axis::Y, #[trigger] dy[k]),
        forall|k: int| 0 <= k < dx.len() ==> candidate_in(hull.spec_size(), #[trigger] dx[k]),
        forall|k: int| 0 <= k < dy.len() ==> candidate_in(hull.spec_size(), #[trigger] dy[k]),
        forall|k: int|
            0 < k < dx.len() ==> !continues(dx[k - 1], (#[trigger] dx[k]).top_left, dx[k].left_room_id, dx[k].right_room_id),
        forall|k: int|
            0 < k < dy.len() ==> !continues(dy[k - 1], (#[trigger] dy[k]).top_left, dy[k].left_room_id, dy[k].right_room_id),
    ensures
        door_runs_of(hull, dx + dy),
{
    reveal(door_runs_of);
    let cs = dx + dy;
    lemma_runs_between_rooms(hull, floor, Axis::X, dx);
    lemma_runs_between_rooms(hull, floor, Axis::Y, dy);
    assert forall|k: int| 0 <= k < cs.len() implies run_between_rooms(hull, #[trigger] cs[k]) by {
        if k < dx.len() {
            assert(cs[k] == dx[k]);
        } else {
            assert(cs[k] == dy[k - dx.len()]);
        }
    }
    assert forall|axis: Axis, c: Coord| #[trigger] hull_door_site(hull, axis, c) implies exists|k: int, t: int|
        0 <= k < cs.len() && 0 <= t < cs[k].length && cs[k].axis == axis && c == #[trigger] step_across(
            cs[k].axis,
            cs[k].top_left,
            t,
        ) by {
        match axis {
            Axis::X => {
                lemma_runs_cover(hull, floor, Axis::X, dx, c);
                let (k, t) = choose|k: int, t: int|
                    0 <= k < dx.len() && 0 <= t < dx[k].length && dx[k].axis == axis && c == #[trigger] step_across(
                        dx[k].axis,
                        dx[k].top_left,
                        t,
                    );
                assert(cs[k] == dx[k]);
            },
            Axis::Y => {
                lemma_runs_cover(hull, floor, Axis::Y, dy, c);
                let (k, t) = choose|k: int, t: int|
                    0 <= k < dy.len() && 0 <= t < dy[k].length && dy[k].axis == axis && c == #[trigger] step_across(
                        dy[k].axis,
                        dy[k].top_left,
                        t,
                    );
                assert(cs[k + dx.len()] == dy[k]);
            },
        }
    }
    assert forall|k: int|
        0 < k < cs.len() && cs[k - 1].axis == cs[k].axis implies !continues(
            cs[k - 1],
            (#[trigger] cs[k]).top_left,
            cs[k].left_room_id,
            cs[k].right_room_id,
        ) by {
        if k < dx.len() {
            assert(cs[k] == dx[k] && cs[k - 1] == dx[k - 1]);
        } else if k == dx.len() {
            assert(cs[k] == dy[0] && cs[k - 1] == dx[k - 1]);
            assert(candidate_fits(floor, Axis::Y, dy[0]));
            assert(candidate_fits(floor, Axis::X, dx[k - 1]));
        } else {
            assert(cs[k] == dy[k - dx.len()] && cs[k - 1] == dy[k - dx.len() - 1]);
        }
    }
}

#[verifier::spinoff_prover]
#[verifier::rlimit(60)]
pub fn add_doors(hull: &Grid<HullCell>, rng: &mut Isaac64Rng) -> (r: Option<Grid<DoorCell>>)
    requires
        hull.wf(),
        hull.spec_size().width <= 46340,
        hull.spec_size().height <= 46340,
        exists|axis: Axis, c: Coord| #[trigger] hull_door_site(*hull, axis, c),
    ensures
        r is Some <==> exists|a: Coord, b: Coord|
            #![trigger hull_stairs_site(*hull, a), hull_stairs_site(*hull, b)]
            hull_stairs_site(*hull, a) && hull_stairs_site(*hull, b) && room_of(*hull, a) != room_of(*hull, b),
        r matches Some(g) ==> {
            &&& g.wf()
            &&& g.spec_size() == hull.spec_size()
            &&& forall|c: Coord| #[trigger] g.contains(c) ==> keeps_hull(*hull, g, c)
            &&& exists|s: Coord, p: Coord|
                {
                    &&& #[trigger] g.contains(s)
                    &&& #[trigger] g.contains(p)
                    &&& g.at(s) == DoorCell::Stairs
                    &&& g.at(p) == DoorCell::Spawn
                    &&& forall|c: Coord| g.contains(c) && #[trigger] g.at(c) == DoorCell::Stairs ==> c == s
                    &&& forall|c: Coord| g.contains(c) && #[trigger] g.at(c) == DoorCell::Spawn ==> c == p
                    &&& room_of(*hull, s) != room_of(*hull, p)
                    &&& floor_all_around(g, s)
                    &&& floor_all_around(g, p)
                }
            &&& exists|cs: Seq<DoorCandidate>, tree: Seq<bool>, ex: Seq<usize>|
                #[trigger] doors_spread(*hull, g, cs, tree, ex)
        },
{
    let floor = classify_floor_cells_into_rooms(hull);
    let ghost size = hull.spec_size();
    let door_candidates_x = identify_door_candidates_in_axis(hull, &floor, Axis::X);
    let door_candidates_y = identify_door_candidates_in_axis(hull, &floor, Axis::Y);
    let ghost dx = door_candidates_x@;
    let ghost dy = door_candidates_y@;
    let mut door_candidates: Vec<DoorCandidate> = Vec::new();
    let mut k: usize = 0;
    while k < door_candidates_x.len()
        invariant
            k <= dx.len(),
            dx == door_candidates_x@,
            door_candidates@ == dx.take(k as int),
        decreases dx.len() - k,
    {
        door_candidates.push(door_candidates_x[k]);
        assert(dx.take(k + 1) =~= dx.take(k as int).push(dx[k as int]));
        k = k + 1;
    }
    let mut k: usize = 0;
    while k < door_candidates_y.len()
        invariant
            k <= dy.len(),
            dy == door_candidates_y@,
            door_candidates@ == dx + dy.take(k as int),
        decreases dy.len() - k,
    {
        door_candidates.push(door_candidates_y[k]);
        assert(dx + dy.take(k + 1) =~= (dx + dy.take(k as int)).push(dy[k as int]));
        k = k + 1;
    }
    let ghost cs = door_candidates@;
    let total = hull.count();
    proof {
        assert(dx.take(dx.len() as int) =~= dx);
        assert(dy.take(dy.len() as int) =~= dy);
        assert(cs == dx + dy);
        let (axis, c) = choose|axis: Axis, c: Coord| #[trigger] hull_door_site(*hull, axis, c);
        assert(door_site(*hull, floor, axis, c));
        lemma_scan_contains(size, axis, c);
        let sc = scan_order(size, axis);
        let i = choose|i: int| 0 <= i < sc.len() && sc[i] == c;
        sc.lemma_filter_contains(door_site_of(*hull, floor, axis), i);
        if cs.len() == 0 {
            assert(dx.len() == 0 && dy.len() == 0);
            assert(all_run_cells(dx) =~= Seq::<Coord>::empty());
            assert(all_run_cells(dy) =~= Seq::<Coord>::empty());
            match axis {
                Axis::X => assert(sc.filter(door_site_of(*hull, floor, axis)).contains(c)),
                Axis::Y => assert(sc.filter(door_site_of(*hull, floor, axis)).contains(c)),
            }
            assert(false);
        }
        lemma_rooms_before_bound(*hull, size_count(size));
        assert forall|k: int| 0 <= k < cs.len() implies (#[trigger] cs[k]).left_room_id < usize::MAX
            && cs[k].right_room_id < usize::MAX by {
            let d = cs[k];
            let axis = d.axis;
            assert(candidate_fits(floor, axis, d)) by {
                if k < dx.len() {
                    assert(cs[k] == dx[k]);
                } else {
                    assert(cs[k] == dy[k - dx.len()]);
                }
            }
            let x = step_across(axis, d.top_left, 0);
            let l = step_along(axis, x, -1);
            let r = step_along(axis, x, 1);
            assert(label_at(floor, l) == Some(FloorCell { room_id: d.left_room_id }));
            assert(label_at(floor, r) == Some(FloorCell { room_id: d.right_room_id }));
            assert(is_floor(*hull, l));
            assert(is_floor(*hull, r));
            law_rooms_are_floor_regions(*hull, l, l);
            law_rooms_are_floor_regions(*hull, r, r);
            assert(floor.at(l) == Some(FloorCell { room_id: room_of(*hull, l) as usize }));
            assert(floor.at(r) == Some(FloorCell { room_id: room_of(*hull, r) as usize }));
            assert(room_of(*hull, l) < total);
            assert(room_of(*hull, r) < total);
        }
    }
    proof {
        lemma_door_runs_of(*hull, floor, dx, dy);
    }
    let graph = RoomGraph::new(door_candidates);
    let in_tree = graph.random_door_candidate_minimum_spanning_tree(rng);
    let mut door_grid = hull.map_ref(door_cell);
    proof {
        assert forall|c: Coord| #[trigger] door_grid.contains(c) implies keeps_hull(*hull, door_grid, c)
            && door_grid.at(c) != DoorCell::Stairs && door_grid.at(c) != DoorCell::Spawn && !(door_grid.at(c) is Door) by {
            assert(door_grid.at(c) == door_cell_of(hull.at(c)));
        }
        assert forall|k: int| 0 <= k < cs.len() implies run_on_walls(*hull, #[trigger] cs[k]) by {
            reveal(door_runs_of);
            assert(run_between_rooms(*hull, cs[k]));
        }
    }
    place_doors(hull, &graph.door_candidates, &in_tree, &mut door_grid, rng);
    let ghost ex = choose|ex: Seq<usize>|
        #![trigger ex.to_multiset()]
        ex.to_multiset() == non_tree(in_tree@).to_multiset() && forall|j: int|
            0 <= j < (ex.len() + 1) / 2 ==> #[trigger] door_in_run(door_grid, cs[ex[j] as int]);
    proof {
        assert(doors_placed(door_grid, cs, in_tree@, ex)) by {
            reveal(doors_placed);
        }
        assert forall|j: int| 0 <= j < ex.len() implies #[trigger] ex[j] < cs.len() by {
            let x = ex[j];
            assert(ex.contains(x));
            vstd::seq_lib::to_multiset_contains(ex, x);
            vstd::seq_lib::to_multiset_contains(non_tree(in_tree@), x);
            let i = choose|i: int| 0 <= i < non_tree(in_tree@).len() && non_tree(in_tree@)[i] == x;
            lemma_non_tree_bound(in_tree@, i);
        }
        assert(tree_marks(cs, in_tree@, max_room_id(cs) + 1)) by {
            reveal(tree_marks);
        }
    }
    let cells = hull.count();
    proof {
        lemma_door_grid_sites(*hull, door_grid);
        assert(cells == total);
    }
    let stairs_coord = match choose_stairs_coord(&door_grid, rng) {
        Some(c) => c,
        None => {
            proof {
                assert forall|a: Coord| !#[trigger] hull_stairs_site(*hull, a) by {
                    assert(!stairs_site(door_grid, a));
                }
            }
            return None;
        },
    };
    let ghost g1 = door_grid;
    proof {
        assert(door_floor_at(g1, stairs_coord));
        assert(keeps_hull(*hull, g1, stairs_coord));
        assert(is_floor(*hull, stairs_coord));
    }
    door_grid.set(stairs_coord, DoorCell::Stairs);
    let ghost g2 = door_grid;
    proof {
        assert(non_door_set(g1, g2, stairs_coord));
        lemma_doors_kept(*hull, g1, g2, stairs_coord, cs, in_tree@, ex);
    }
    let stairs_room = floor.get_checked(stairs_coord).unwrap().room_id;
    proof {
        assert forall|c: Coord| #[trigger] door_floor_at(g2, c) implies floor.at(c) is Some by {
            assert(g1.contains(c));
            assert(keeps_hull(*hull, g1, c));
            assert(is_floor(*hull, c));
        }
    }
    proof {
        lemma_rooms_before_bound(*hull, size_count(size));
        assert(floor.at(stairs_coord) == Some(FloorCell { room_id: room_of(*hull, stairs_coord) as usize }));
        law_rooms_are_floor_regions(*hull, stairs_coord, stairs_coord);
        assert(stairs_room == room_of(*hull, stairs_coord));
        assert forall|p: Coord| #[trigger] hull_stairs_site(*hull, p) && room_of(*hull, p) != room_of(*hull, stairs_coord)
            implies spawn_site(g2, floor, stairs_room, p) by {
            assert(stairs_site(g1, p));
            assert(p != stairs_coord);
            assert(g2.contains(p));
            assert forall|j: int| 0 <= j < 4 implies #[trigger] door_floor_at(g2, coord_plus(p, cardinal_delta(cardinal_directions()[j]))) by {
                let m = coord_plus(p, cardinal_delta(cardinal_directions()[j]));
                assert(door_floor_at(g1, m));
                assert(is_floor(*hull, m));
                if m == stairs_coord {
                    lemma_neighbour_same_room(*hull, p, j);
                }
                assert(g1.contains(m));
            }
            assert(floor.at(p) == Some(FloorCell { room_id: room_of(*hull, p) as usize }));
            law_rooms_are_floor_regions(*hull, p, p);
        }
    }
    let spawn_coord = match choose_spawn_coord(&door_grid, &floor, stairs_room, stairs_coord, rng) {
        Some(c) => c,
        None => {
            proof {
                assert forall|a: Coord, b: Coord|
                    #![trigger hull_stairs_site(*hull, a), hull_stairs_site(*hull, b)]
                    hull_stairs_site(*hull, a) && hull_stairs_site(*hull, b) implies room_of(*hull, a) == room_of(*hull, b) by {
                    if room_of(*hull, a) != room_of(*hull, stairs_coord) {
                        assert(spawn_site(g2, floor, stairs_room, a));
                    }
                    if room_of(*hull, b) != room_of(*hull, stairs_coord) {
                        assert(spawn_site(g2, floor, stairs_room, b));
                    }
                }
            }
            return None;
        },
    };
    proof {
        assert(door_floor_at(g2, spawn_coord));
        assert(spawn_coord != stairs_coord);
    }
    door_grid.set(spawn_coord, DoorCell::Spawn);
    proof {
        assert(non_door_set(g2, door_grid, spawn_coord));
        lemma_doors_kept(*hull, g2, door_grid, spawn_coord, cs, in_tree@, ex);
        assert(doors_spread(*hull, door_grid, cs, in_tree@, ex));
    }
    proof {
        let g = door_grid;
        let s = stairs_coord;
        let p = spawn_coord;
        assert forall|c: Coord| #[trigger] g.contains(c) implies keeps_hull(*hull, g, c) by {
            assert(g1.contains(c));
            assert(keeps_hull(*hull, g1, c));
            if c == s || c == p {
                assert(door_floor_at(g1, c) || c == p);
                assert(is_floor(*hull, c)) by {
                    if c == p {
                        assert(door_floor_at(g2, p));
                        assert(g2.at(p) == g1.at(p));
                    }
                }
            }
        }
        assert forall|c: Coord| g.contains(c) && #[trigger] g.at(c) == DoorCell::Stairs implies c == s by {
            assert(g1.contains(c));
        }
        assert forall|c: Coord| g.contains(c) && #[trigger] g.at(c) == DoorCell::Spawn implies c == p by {
            assert(g1.contains(c));
        }
        assert(floor.at(s) == Some(FloorCell { room_id: room_of(*hull, s) as usize }));
        assert(floor.at(p) == Some(FloorCell { room_id: room_of(*hull, p) as usize }));
        lemma_rooms_before_bound(*hull, size_count(size));
        law_rooms_are_floor_regions(*hull, s, p);
        assert(room_of(*hull, s) != room_of(*hull, p));
        assert(stairs_site(g1, s));
        assert forall|j: int| 0 <= j < 4 implies #[trigger] door_floor_at(g, coord_plus(s, cardinal_delta(cardinal_directions()[j]))) by {
            let m = coord_plus(s, cardinal_delta(cardinal_directions()[j]));
            assert(door_floor_at(g1, m));
            lemma_cardinal_neighbours(s, m);
            assert(is_cardinal_neighbour(s, m));
            if m == p {
                lemma_cardinal_neighbours(p, s);
                let i = choose|i: int| 0 <= i < 4 && s == #[trigger] coord_plus(p, cardinal_delta(cardinal_directions()[i]));
                assert(door_floor_at(g2, coord_plus(p, cardinal_delta(cardinal_directions()[i]))));
            }
            assert(m != s);
        }
        assert forall|j: int| 0 <= j < 4 implies #[trigger] door_floor_at(g, coord_plus(p, cardinal_delta(cardinal_directions()[j]))) by {
            let m = coord_plus(p, cardinal_delta(cardinal_directions()[j]));
            assert(door_floor_at(g2, m));
            lemma_cardinal_neighbours(p, m);
            assert(m != p);
        }
        assert(g.contains(s) && g.contains(p));
        assert(hull_stairs_site(*hull, s));
        assert(stairs_site(g2, p));
        assert(is_floor(*hull, p)) by {
            assert(door_floor_at(g1, p));
        }
        assert forall|j: int| 0 <= j < 4 implies #[trigger] is_floor(*hull, coord_plus(p, cardinal_delta(cardinal_directions()[j]))) by {
            let m = coord_plus(p, cardinal_delta(cardinal_directions()[j]));
            assert(door_floor_at(g2, m));
            assert(m != s);
            assert(door_floor_at(g1, m));
        }
        assert(hull_stairs_site(*hull, p));
    }
    Some(door_grid)
}

} // verus!
