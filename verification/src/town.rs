//! Towns on the river: square clearings placed where the river crosses a town-sized square
//! exactly twice.
use crate::geometry::{
    can_add, can_sub, coord_minus, coord_plus, edge_coords, edge_sequence, size_contains, Coord,
    Size,
};
use crate::grid::Grid;
use crate::random::choose_one;
use crate::river::WorldCell1;
use rand_isaac::Isaac64Rng;
use vstd::prelude::*;

verus! {

/// The size of the square clearing of a town.
pub open spec fn town_size() -> Size {
    Size { width: 50, height: 50 }
}

/// Half the extent of a town square, from its centre to its top-left cell.
pub open spec fn town_half() -> Coord {
    Coord { x: 25, y: 25 }
}

/// Every border cell of a rectangle lies inside it.
pub proof fn lemma_edge_sequence_inside(s: Size)
    requires
        s.width <= i32::MAX,
        s.height <= i32::MAX,
    ensures
        forall|k: int|
            0 <= k < edge_sequence(s).len() ==> size_contains(s, #[trigger] edge_sequence(s)[k]),
{
    let w = s.width as int;
    let h = s.height as int;
    if w == 0 || h == 0 {
    } else if w == 1 || h == 1 {
        assert forall|k: int| 0 <= k < edge_sequence(s).len() implies size_contains(
            s,
            #[trigger] edge_sequence(s)[k],
        ) by {
            assert(0 <= k < w * h);
            let e = edge_sequence(s)[k];
            if w == 1 {
                assert(k % 1 == 0 && k / 1 == k);
                assert(k < h);
                assert(e == Coord { x: 0, y: k as i32 });
            } else {
                assert(h == 1);
                assert(k < w);
                assert(k % w == k && k / w == 0) by (nonlinear_arith)
                    requires
                        0 <= k < w,
                ;
                assert(e == Coord { x: k as i32, y: 0 });
            }
        }
    } else {
        let top = Seq::new((w - 1) as nat, |i: int| Coord { x: i as i32, y: 0 });
        let right = Seq::new((h - 1) as nat, |i: int| Coord { x: (w - 1) as i32, y: i as i32 });
        let bottom = Seq::new(
            (w - 1) as nat,
            |i: int| Coord { x: (w - 1 - i) as i32, y: (h - 1) as i32 },
        );
        let left = Seq::new((h - 1) as nat, |i: int| Coord { x: 0, y: (h - 1 - i) as i32 });
        assert(edge_sequence(s) == top + right + bottom + left);
        assert forall|k: int| 0 <= k < edge_sequence(s).len() implies size_contains(
            s,
            #[trigger] edge_sequence(s)[k],
        ) by {
            let e = edge_sequence(s);
            if k < w - 1 {
                assert(e[k] == top[k]);
                assert(e[k] == Coord { x: k as i32, y: 0 });
            } else if k < w - 1 + h - 1 {
                let j = k - (w - 1);
                assert(e[k] == right[j]);
                assert(e[k] == Coord { x: (w - 1) as i32, y: j as i32 });
            } else if k < 2 * (w - 1) + h - 1 {
                let j = k - (w - 1) - (h - 1);
                assert(e[k] == bottom[j]);
                assert(e[k] == Coord { x: (w - 1 - j) as i32, y: (h - 1) as i32 });
            } else {
                let j = k - 2 * (w - 1) - (h - 1);
                assert(e[k] == left[j]);
                assert(e[k] == Coord { x: 0, y: (h - 1 - j) as i32 });
            }
        }
    }
}

/// The cell before position `k` of a walk, where the walk is taken to begin on land.
pub open spec fn cell_before(vals: Seq<WorldCell1>, k: int) -> WorldCell1 {
    if k == 0 {
        WorldCell1::Land
    } else {
        vals[k - 1]
    }
}

/// The number of steps from land onto water among the first `n` cells of a walk that begins
/// on land.
pub open spec fn land_to_water_steps(vals: Seq<WorldCell1>, n: int) -> nat
    decreases n,
{
    if n <= 0 {
        0
    } else {
        land_to_water_steps(vals, n - 1) + if cell_before(vals, n - 1) == WorldCell1::Land
            && vals[n - 1] == WorldCell1::Water {
            1nat
        } else {
            0nat
        }
    }
}

/// The top-left cell of the town square centred on `centre`.
pub open spec fn town_top_left(centre: Coord) -> Coord {
    coord_minus(centre, town_half())
}

/// The cells of the grid met when walking the border of the town square centred on `centre`.
pub open spec fn town_border_cells(grid: Grid<WorldCell1>, centre: Coord) -> Seq<WorldCell1> {
    let edges = edge_sequence(town_size());
    Seq::new(edges.len(), |k: int| grid.at(coord_plus(edges[k], town_top_left(centre))))
}

/// A town may be centred on the river cell `centre`: the top-left corner of its square is
/// land, its whole border lies inside the grid, and a walk around the border steps from land
/// onto water exactly twice, so the river crosses the square once.
pub open spec fn valid_for_river_town(grid: Grid<WorldCell1>, centre: Coord) -> bool {
    let tl = town_top_left(centre);
    let edges = edge_sequence(town_size());
    &&& grid.at(centre) == WorldCell1::Water
    &&& grid.contains(tl)
    &&& grid.at(tl) == WorldCell1::Land
    &&& forall|k: int| 0 <= k < edges.len() ==> grid.contains(#[trigger] coord_plus(edges[k], tl))
    &&& land_to_water_steps(town_border_cells(grid, centre), edges.len() as int) == 2
}

/// True iff a town may be centred on `coord`, which must be a cell of the grid.
pub fn is_point_valid_for_river_town(grid: &Grid<WorldCell1>, coord: Coord) -> (b: bool)
    requires
        grid.wf(),
        grid.contains(coord),
        coord.x + 25 <= i32::MAX,
        coord.y + 25 <= i32::MAX,
    ensures
        b == valid_for_river_town(*grid, coord),
{
    if *grid.get_checked(coord) != WorldCell1::Water {
        return false;
    }
    let rect_size = Size { width: 50, height: 50 };
    let rect_top_left = coord.minus(Coord { x: (rect_size.width / 2) as i32, y: (rect_size.height / 2) as i32 });
    let ghost tl = rect_top_left;
    let ghost edges_spec = edge_sequence(town_size());
    match grid.get(rect_top_left) {
        Some(cell) => {
            if *cell == WorldCell1::Water {
                return false;
            }
        },
        None => {
            return false;
        },
    }
    let edges = edge_coords(rect_size);
    proof {
        lemma_edge_sequence_inside(town_size());
    }
    let mut current = WorldCell1::Land;
    let mut transition_count: usize = 0;
    let mut k: usize = 0;
    while k < edges.len()
        invariant
            grid.wf(),
            grid.contains(coord),
            coord.x + 25 <= i32::MAX,
            coord.y + 25 <= i32::MAX,
            grid.at(coord) == WorldCell1::Water,
            grid.contains(tl),
            grid.at(tl) == WorldCell1::Land,
            tl == rect_top_left,
            tl == town_top_left(coord),
            edges@ == edges_spec,
            edges_spec == edge_sequence(town_size()),
            forall|j: int| 0 <= j < edges_spec.len() ==> size_contains(town_size(), #[trigger] edges_spec[j]),
            k <= edges@.len(),
            forall|j: int| 0 <= j < k ==> grid.contains(#[trigger] coord_plus(edges_spec[j], tl)),
            transition_count <= k,
            transition_count == land_to_water_steps(town_border_cells(*grid, coord), k as int),
            current == cell_before(town_border_cells(*grid, coord), k as int),
        decreases edges@.len() - k,
    {
        let e = edges[k];
        assert(size_contains(town_size(), edges_spec[k as int]));
        let c = e.plus(rect_top_left);
        match grid.get(c) {
            Some(cell) => {
                let cell = *cell;
                if cell != current && current == WorldCell1::Land {
                    transition_count = transition_count + 1;
                }
                current = cell;
            },
            None => {
                return false;
            },
        }
        k = k + 1;
    }
    transition_count == 2
}

/// The town candidates among the river cells at positions `lo` up to (but excluding) `hi`, in
/// order: those positions that exist and hold a cell on which a town may be centred.
pub open spec fn candidates_between(
    grid: Grid<WorldCell1>,
    river: Seq<Coord>,
    lo: int,
    hi: int,
) -> Seq<Coord>
    decreases hi - lo,
{
    if hi <= lo {
        Seq::empty()
    } else {
        candidates_between(grid, river, lo, hi - 1) + if hi - 1 < river.len()
            && valid_for_river_town(grid, river[hi - 1]) {
            seq![river[hi - 1]]
        } else {
            Seq::empty()
        }
    }
}

/// How far on either side of its approximate position along the river a town may be placed.
pub open spec fn town_position_range() -> int {
    10
}

/// The approximate positions along the river of the two towns: a quarter and four fifths of the
/// way down.
pub open spec fn town_indices_approx(n: int) -> Seq<int> {
    seq![n / 4, (4 * n) / 5]
}

/// For each of the two towns, in order, the river cells near its approximate position on which
/// it may be centred.
pub fn get_town_candidate_positions(grid: &Grid<WorldCell1>, river: &Vec<Coord>) -> (r: Vec<Vec<Coord>>)
    requires
        grid.wf(),
        river@.len() / 4 >= town_position_range(),
        4 * river@.len() <= usize::MAX,
        forall|k: int| 0 <= k < river@.len() ==> grid.contains(#[trigger] river@[k]),
        forall|k: int| 0 <= k < river@.len() ==> (#[trigger] river@[k]).x + 25 <= i32::MAX && river@[k].y + 25 <= i32::MAX,
    ensures
        r@.len() == 2,
        forall|t: int|
            0 <= t < 2 ==> (#[trigger] r@[t])@ == candidates_between(
                *grid,
                river@,
                town_indices_approx(river@.len() as int)[t] - town_position_range(),
                town_indices_approx(river@.len() as int)[t] + town_position_range(),
            ),
{
    let position_range: usize = 10;
    let n = river.len();
    let indices_approx = vec![n / 4, (4 * n) / 5];
    let mut result: Vec<Vec<Coord>> = Vec::new();
    let mut t: usize = 0;
    while t < 2
        invariant
            grid.wf(),
            n == river@.len(),
            n / 4 >= 10,
            4 * n <= usize::MAX,
            position_range == 10,
            indices_approx@ == seq![(n / 4) as usize, ((4 * n) / 5) as usize],
            forall|k: int| 0 <= k < river@.len() ==> grid.contains(#[trigger] river@[k]),
            forall|k: int| 0 <= k < river@.len() ==> (#[trigger] river@[k]).x + 25 <= i32::MAX && river@[k].y + 25 <= i32::MAX,
            t <= 2,
            result@.len() == t,
            forall|s: int|
                0 <= s < t ==> (#[trigger] result@[s])@ == candidates_between(
                    *grid,
                    river@,
                    town_indices_approx(n as int)[s] - town_position_range(),
                    town_indices_approx(n as int)[s] + town_position_range(),
                ),
        decreases 2 - t,
    {
        let index_approx = indices_approx[t];
        assert(index_approx >= 10);
        let lo = index_approx - position_range;
        let hi = index_approx + position_range;
        let mut candidates: Vec<Coord> = Vec::new();
        let mut i = lo;
        while i < hi
            invariant
                grid.wf(),
                forall|k: int| 0 <= k < river@.len() ==> grid.contains(#[trigger] river@[k]),
                forall|k: int| 0 <= k < river@.len() ==> (#[trigger] river@[k]).x + 25 <= i32::MAX && river@[k].y + 25 <= i32::MAX,
                lo <= i <= hi,
                candidates@ == candidates_between(*grid, river@, lo as int, i as int),
            decreases hi - i,
        {
            if i < river.len() {
                let coord = river[i];
                if is_point_valid_for_river_town(grid, coord) {
                    candidates.push(coord);
                }
            }
            i = i + 1;
        }
        result.push(candidates);
        proof {
            assert forall|s: int| 0 <= s < t + 1 implies (#[trigger] result@[s])@ == candidates_between(
                *grid,
                river@,
                town_indices_approx(n as int)[s] - town_position_range(),
                town_indices_approx(n as int)[s] + town_position_range(),
            ) by {
                if s == t {
                    assert(town_indices_approx(n as int)[s] == index_approx);
                }
            }
        }
        t = t + 1;
    }
    result
}

/// `c` lies in the town square centred on `centre`.
pub open spec fn in_town_square(centre: Coord, c: Coord) -> bool {
    &&& centre.x - 25 <= c.x < centre.x + 25
    &&& centre.y - 25 <= c.y < centre.y + 25
}

/// The town square centred on `centre` lies inside a grid of size `s`.
pub open spec fn town_square_fits(s: Size, centre: Coord) -> bool {
    &&& centre.x - 25 >= 0
    &&& centre.y - 25 >= 0
    &&& centre.x + 25 <= s.width
    &&& centre.y + 25 <= s.height
}

/// The grid after clearing the town squares centred on `towns`: water on those squares and
/// on the water cells of `grid`, land elsewhere.
pub open spec fn grid_with_towns(grid: Grid<WorldCell1>, towns: Seq<Coord>, out: Grid<WorldCell1>) -> bool {
    &&& out.wf()
    &&& out.spec_size() == grid.spec_size()
    &&& forall|c: Coord|
        #[trigger] out.contains(c) ==> out.at(c) == if exists|t: int|
            0 <= t < towns.len() && in_town_square(#[trigger] towns[t], c) {
            WorldCell1::Water
        } else {
            grid.at(c)
        }
}

/// Sets every cell of the town square centred on `centre` to water.
fn clear_town_square(output: &mut Grid<WorldCell1>, centre: Coord)
    requires
        old(output).wf(),
        town_square_fits(old(output).spec_size(), centre),
    ensures
        final(output).wf(),
        final(output).spec_size() == old(output).spec_size(),
        forall|c: Coord|
            #[trigger] final(output).contains(c) ==> final(output).at(c) == if in_town_square(centre, c) {
                WorldCell1::Water
            } else {
                old(output).at(c)
            },
{
    let ghost o0 = *output;
    let top_left = centre.minus(Coord { x: 25, y: 25 });
    let mut dy: i32 = 0;
    while dy < 50
        invariant
            output.wf(),
            output.spec_size() == o0.spec_size(),
            town_square_fits(o0.spec_size(), centre),
            top_left == coord_minus(centre, town_half()),
            0 <= dy <= 50,
            forall|c: Coord|
                #[trigger] output.contains(c) ==> output.at(c) == if in_town_square(centre, c)
                    && c.y < top_left.y + dy {
                    WorldCell1::Water
                } else {
                    o0.at(c)
                },
        decreases 50 - dy,
    {
        let mut dx: i32 = 0;
        while dx < 50
            invariant
                output.wf(),
                output.spec_size() == o0.spec_size(),
                town_square_fits(o0.spec_size(), centre),
                top_left == coord_minus(centre, town_half()),
                0 <= dy < 50,
                0 <= dx <= 50,
                forall|c: Coord|
                    #[trigger] output.contains(c) ==> output.at(c) == if in_town_square(centre, c)
                        && (c.y < top_left.y + dy || (c.y == top_left.y + dy && c.x < top_left.x + dx)) {
                        WorldCell1::Water
                    } else {
                        o0.at(c)
                    },
            decreases 50 - dx,
        {
            let c = Coord { x: top_left.x + dx, y: top_left.y + dy };
            let ghost before = *output;
            output.set(c, WorldCell1::Water);
            proof {
                assert forall|d: Coord| #[trigger] output.contains(d) implies output.at(d) == if in_town_square(centre, d)
                    && (d.y < top_left.y + dy || (d.y == top_left.y + dy && d.x < top_left.x + dx + 1)) {
                    WorldCell1::Water
                } else {
                    o0.at(d)
                } by {
                    assert(before.contains(d));
                    if d != c {
                        assert(output.at(d) == before.at(d));
                    }
                }
            }
            dx = dx + 1;
        }
        dy = dy + 1;
    }
}

/// Clears a town square around one candidate of each list, chosen by the generator. Always
/// returns `Some`; every list must be non-empty and every candidate's square must fit in the
/// grid.
pub fn make_towns(
    grid: &Grid<WorldCell1>,
    town_candidate_positions: &Vec<Vec<Coord>>,
    rng: &mut Isaac64Rng,
) -> (r: Option<(Grid<WorldCell1>, Vec<Coord>)>)
    requires
        grid.wf(),
        forall|t: int|
            0 <= t < town_candidate_positions@.len() ==> (#[trigger] town_candidate_positions@[t])@.len() > 0,
        forall|t: int, k: int|
            0 <= t < town_candidate_positions@.len() && 0 <= k < town_candidate_positions@[t]@.len()
                ==> town_square_fits(grid.spec_size(), #[trigger] town_candidate_positions@[t]@[k]),
    ensures
        r is Some,
        r matches Some((out, towns)) ==> {
            &&& towns@.len() == town_candidate_positions@.len()
            &&& forall|t: int|
                0 <= t < towns@.len() ==> town_candidate_positions@[t]@.contains(#[trigger] towns@[t])
            &&& grid_with_towns(*grid, towns@, out)
        },
{
    let mut output = grid.copy();
    let mut town_positions: Vec<Coord> = Vec::new();
    let mut i: usize = 0;
    while i < town_candidate_positions.len()
        invariant
            grid.wf(),
            forall|t: int|
                0 <= t < town_candidate_positions@.len() ==> (#[trigger] town_candidate_positions@[t])@.len() > 0,
            forall|t: int, k: int|
                0 <= t < town_candidate_positions@.len() && 0 <= k < town_candidate_positions@[t]@.len()
                    ==> town_square_fits(grid.spec_size(), #[trigger] town_candidate_positions@[t]@[k]),
            i <= town_candidate_positions@.len(),
            town_positions@.len() == i,
            forall|t: int|
                0 <= t < i ==> town_candidate_positions@[t]@.contains(#[trigger] town_positions@[t]),
            grid_with_towns(*grid, town_positions@, output),
        decreases town_candidate_positions@.len() - i,
    {
        let candidates = &town_candidate_positions[i];
        assert(candidates@.len() > 0);
        let centre = match choose_one(rng, candidates) {
            Some(c) => c,
            None => {
                return None;
            },
        };
        let ghost k = choose|k: int| 0 <= k < candidates@.len() && candidates@[k] == centre;
        assert(town_square_fits(grid.spec_size(), town_candidate_positions@[i as int]@[k]));
        let ghost before = output;
        let ghost towns_before = town_positions@;
        clear_town_square(&mut output, centre);
        town_positions.push(centre);
        proof {
            let towns = town_positions@;
            assert(towns == towns_before.push(centre));
            assert forall|c: Coord| #[trigger] output.contains(c) implies output.at(c) == if exists|t: int|
                0 <= t < towns.len() && in_town_square(#[trigger] towns[t], c) {
                WorldCell1::Water
            } else {
                grid.at(c)
            } by {
                assert(before.contains(c));
                if exists|t: int| 0 <= t < towns_before.len() && in_town_square(#[trigger] towns_before[t], c) {
                    let t = choose|t: int| 0 <= t < towns_before.len() && in_town_square(#[trigger] towns_before[t], c);
                    assert(towns[t] == towns_before[t]);
                }
                if exists|t: int| 0 <= t < towns.len() && in_town_square(#[trigger] towns[t], c) {
                    let t = choose|t: int| 0 <= t < towns.len() && in_town_square(#[trigger] towns[t], c);
                    if t < towns_before.len() {
                        assert(towns_before[t] == towns[t]);
                    }
                }
                if in_town_square(centre, c) {
                    assert(towns[towns_before.len() as int] == centre);
                }
            }
            assert forall|t: int| 0 <= t < i + 1 implies town_candidate_positions@[t]@.contains(
                #[trigger] town_positions@[t],
            ) by {
                if t < i {
                    assert(town_positions@[t] == towns_before[t]);
                }
            }
        }
        i = i + 1;
    }
    Some((output, town_positions))
}

} // verus!
