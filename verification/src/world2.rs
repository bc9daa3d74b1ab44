//! The second stage of world generation: the first grid scaled up three times with padding, the
//! river as straight lines between consecutive points, widened, and the city gate where the
//! river enters the city.
use crate::geometry::{coord_plus, is_neighbour, lemma_neighbours, all_directions, direction_delta, size_contains, Coord, Direction, Size};
use crate::grid::{index_of, lemma_index_bounds, size_count, Grid};
use crate::terrain::{Blob, Spec, World2};
use crate::world3::{set_cells, set_cells_inside};
use crate::water::{WaterType, WorldCell2};
use vstd::prelude::*;

verus! {

/// The size of the second grid for a first grid of size `s`: three times larger, with 170
/// columns (100 on the left, 20 of land and 50 of ocean on the right) and 400 rows (200 above,
/// 200 below) of padding.
pub open spec fn world2_size_spec(s: Size) -> Size {
    Size { width: (s.width * 3 + 170) as u32, height: (s.height * 3 + 400) as u32 }
}

/// The size of the second grid for a first grid of size `size`.
pub fn world2_size(size: Size) -> (r: Size)
    requires
        size.width * 3 + 170 <= i32::MAX,
        size.height * 3 + 400 <= i32::MAX,
    ensures
        r == world2_size_spec(size),
{
    Size { width: size.width * 3 + 170, height: size.height * 3 + 400 }
}

/// Where a cell of the first grid lands in the second: scaled by three and shifted past the
/// left and top padding.
pub open spec fn scale_coord_spec(c: Coord) -> Coord {
    Coord { x: (c.x * 3 + 100) as i32, y: (c.y * 3 + 200) as i32 }
}

/// Both components lie in `[lo, hi)`.
pub open spec fn coord_in_range(c: Coord, lo: int, hi: int) -> bool {
    lo <= c.x < hi && lo <= c.y < hi
}

/// The cell of the second grid for the cell `c` of the first.
pub fn scale_coord(c: Coord) -> (r: Coord)
    requires
        coord_in_range(c, -1000000, 1000000),
    ensures
        r == scale_coord_spec(c),
{
    Coord { x: c.x * 3 + 100, y: c.y * 3 + 200 }
}

/// The points of the river in the first grid, extended with the lake before its first point
/// (11 cells to the west) and the ocean after its last (23 cells to the east).
pub open spec fn extended_river(river: Seq<Coord>) -> Seq<Coord> {
    seq![Coord { x: (river[0].x - 11) as i32, y: river[0].y }] + river + seq![
        Coord { x: (river.last().x + 23) as i32, y: river.last().y },
    ]
}

/// The river extended to the lake and the ocean, with each point taken to the second grid.
pub fn world2_river_points(river: &Vec<Coord>) -> (r: Vec<Coord>)
    requires
        river@.len() > 0,
        forall|k: int| 0 <= k < river@.len() ==> coord_in_range(#[trigger] river@[k], 0, 100000),
    ensures
        r@ == extended_river(river@).map_values(|c: Coord| scale_coord_spec(c)),
{
    let ghost ext = extended_river(river@);
    let first = river[0];
    let last = river[river.len() - 1];
    let mut r: Vec<Coord> = Vec::new();
    r.push(scale_coord(Coord { x: first.x - 11, y: first.y }));
    let mut k: usize = 0;
    while k < river.len()
        invariant
            river@.len() > 0,
            forall|j: int| 0 <= j < river@.len() ==> coord_in_range(#[trigger] river@[j], 0, 100000),
            ext == extended_river(river@),
            k <= river@.len(),
            r@.len() == k + 1,
            forall|j: int| 0 <= j <= k ==> #[trigger] r@[j] == scale_coord_spec(ext[j]),
        decreases river@.len() - k,
    {
        assert(coord_in_range(river@[k as int], 0, 100000));
        r.push(scale_coord(river[k]));
        assert(ext[k + 1] == river@[k as int]);
        k = k + 1;
    }
    r.push(scale_coord(Coord { x: last.x + 23, y: last.y }));
    assert(r@ =~= ext.map_values(|c: Coord| scale_coord_spec(c)));
    r
}

/// The cells that `line_2d` visits on the straight line from `start` to `end`, both included.
pub uninterp spec fn line_coords(start: Coord, end: Coord) -> Seq<Coord>;

/// `line_2d::coords_between`, collected: the cells of the straight line from `start` to `end`,
/// diagonal steps allowed. Its documentation states that the walk begins on `start` and ends on
/// `end`; which cells lie between is named, not stated. Coordinates are kept far from the `i32`
/// limits, where the walk would stop early.
#[verifier::external_body]
pub(crate) fn coords_between(start: Coord, end: Coord) -> (v: Vec<Coord>)
    requires
        coord_in_range(start, -1073741824, 1073741824),
        coord_in_range(end, -1073741824, 1073741824),
    ensures
        v@ == line_coords(start, end),
        v@.len() > 0,
        v@[0] == start,
        v@.last() == end,
{
    line_2d::coords_between(line_2d::ICoord::new(start.x, start.y), line_2d::ICoord::new(end.x, end.y))
        .map(|c| Coord { x: c.x, y: c.y })
        .collect()
}

/// The cells that `line_2d` visits on the straight line from `start` to `end` taking only
/// steps that share a side, both ends included.
pub uninterp spec fn line_cardinal_coords(start: Coord, end: Coord) -> Seq<Coord>;

/// `line_2d::coords_between_cardinal`, collected: the cells of the straight line from `start`
/// to `end` with only cardinal steps. Its documentation states that the walk begins on `start`
/// and ends on `end`; which cells lie between is named, not stated. Coordinates are kept far
/// from the `i32` limits, where the walk would stop early.
#[verifier::external_body]
pub(crate) fn coords_between_cardinal(start: Coord, end: Coord) -> (v: Vec<Coord>)
    requires
        coord_in_range(start, -1073741824, 1073741824),
        coord_in_range(end, -1073741824, 1073741824),
    ensures
        v@ == line_cardinal_coords(start, end),
        v@.len() > 0,
        v@[0] == start,
        v@.last() == end,
{
    line_2d::coords_between_cardinal(
        line_2d::ICoord::new(start.x, start.y),
        line_2d::ICoord::new(end.x, end.y),
    ).map(|c| Coord { x: c.x, y: c.y }).collect()
}

/// The cells of the lines joining consecutive points of `points`, in order.
pub open spec fn polyline_coords(points: Seq<Coord>, n: int) -> Seq<Coord>
    decreases n,
{
    if n <= 1 {
        Seq::empty()
    } else {
        polyline_coords(points, n - 1) + line_coords(points[n - 2], points[n - 1])
    }
}

/// The cells of the straight lines joining each point of `points` to the next.
pub fn river_line_cells(points: &Vec<Coord>) -> (r: Vec<Coord>)
    requires
        forall|k: int|
            0 <= k < points@.len() ==> coord_in_range(#[trigger] points@[k], -1073741824, 1073741824),
    ensures
        r@ == polyline_coords(points@, points@.len() as int),
{
    let mut r: Vec<Coord> = Vec::new();
    let mut k: usize = 1;
    while k < points.len()
        invariant
            forall|j: int|
                0 <= j < points@.len() ==> coord_in_range(#[trigger] points@[j], -1073741824, 1073741824),
            1 <= k,
            k <= points@.len() || k == 1,
            r@ == polyline_coords(points@, k as int),
        decreases points@.len() - k,
    {
        let line = coords_between(points[k - 1], points[k]);
        let mut i: usize = 0;
        let ghost r0 = r@;
        while i < line.len()
            invariant
                r@ == r0 + line@.subrange(0, i as int),
                i <= line@.len(),
            decreases line@.len() - i,
        {
            r.push(line[i]);
            i = i + 1;
            assert(r@ =~= r0 + line@.subrange(0, i as int));
        }
        assert(line@.subrange(0, line@.len() as int) =~= line@);
        k = k + 1;
    }
    proof {
        if points@.len() == 0 {
            assert(polyline_coords(points@, 0) == Seq::<Coord>::empty());
            assert(polyline_coords(points@, 1) == Seq::<Coord>::empty());
        }
    }
    r
}

/// Paints every cell of `cells` as river water, which must all lie in the grid.
pub fn paint_river2(grid: &mut Grid<WorldCell2>, cells: &Vec<Coord>)
    requires
        old(grid).wf(),
        forall|k: int| 0 <= k < cells@.len() ==> old(grid).contains(#[trigger] cells@[k]),
    ensures
        final(grid).wf(),
        final(grid).spec_size() == old(grid).spec_size(),
        forall|c: Coord|
            #[trigger] final(grid).contains(c) ==> final(grid).at(c) == if cells@.contains(c) {
                WorldCell2::Water(WaterType::River)
            } else {
                old(grid).at(c)
            },
{
    let ghost g0 = *grid;
    let mut k: usize = 0;
    while k < cells.len()
        invariant
            grid.wf(),
            grid.spec_size() == g0.spec_size(),
            forall|j: int| 0 <= j < cells@.len() ==> g0.contains(#[trigger] cells@[j]),
            k <= cells@.len(),
            forall|c: Coord|
                #[trigger] grid.contains(c) ==> grid.at(c) == if cells@.take(k as int).contains(c) {
                    WorldCell2::Water(WaterType::River)
                } else {
                    g0.at(c)
                },
        decreases cells@.len() - k,
    {
        let c = cells[k];
        let ghost before = *grid;
        assert(g0.contains(cells@[k as int]));
        grid.set(c, WorldCell2::Water(WaterType::River));
        proof {
            assert forall|d: Coord| #[trigger] grid.contains(d) implies grid.at(d) == if cells@.take(
                k + 1,
            ).contains(d) {
                WorldCell2::Water(WaterType::River)
            } else {
                g0.at(d)
            } by {
                let t0 = cells@.take(k as int);
                let t1 = cells@.take(k + 1);
                assert(t1 =~= t0.push(c));
                assert(before.contains(d));
                if d != c {
                    assert(grid.at(d) == before.at(d));
                    if t0.contains(d) {
                        let j = choose|j: int| 0 <= j < t0.len() && t0[j] == d;
                        assert(t1[j] == d);
                    }
                    if t1.contains(d) {
                        let j = choose|j: int| 0 <= j < t1.len() && t1[j] == d;
                        assert(t0[j] == d);
                    }
                } else {
                    assert(t1[k as int] == c);
                }
            }
        }
        k = k + 1;
    }
    assert(cells@.take(cells@.len() as int) =~= cells@);
}

/// One of the eight neighbours of `c` is river water.
pub open spec fn has_river_neighbour(g: Grid<WorldCell2>, c: Coord) -> bool {
    exists|n: Coord|
        #[trigger] is_neighbour(c, n) && g.contains(n) && g.at(n) == WorldCell2::Water(WaterType::River)
}

fn river_neighbour(grid: &Grid<WorldCell2>, coord: Coord) -> (b: bool)
    requires
        grid.wf(),
        grid.contains(coord),
    ensures
        b == has_river_neighbour(*grid, coord),
{
    let directions = Direction::all();
    let mut k: usize = 0;
    let mut found = false;
    while k < 8
        invariant
            grid.wf(),
            grid.contains(coord),
            directions@ == all_directions(),
            k <= 8,
            found == exists|i: int|
                0 <= i < k && {
                    let n = #[trigger] coord_plus(coord, direction_delta(all_directions()[i]));
                    grid.contains(n) && grid.at(n) == WorldCell2::Water(WaterType::River)
                },
        decreases 8 - k,
    {
        let n = coord.plus(directions[k].coord());
        if let Some(cell) = grid.get(n) {
            if *cell == WorldCell2::Water(WaterType::River) {
                found = true;
            }
        }
        k = k + 1;
    }
    proof {
        if found {
            let i = choose|i: int|
                0 <= i < 8 && {
                    let n = #[trigger] coord_plus(coord, direction_delta(all_directions()[i]));
                    grid.contains(n) && grid.at(n) == WorldCell2::Water(WaterType::River)
                };
            let n = coord_plus(coord, direction_delta(all_directions()[i]));
            lemma_neighbours(coord, n);
            assert(is_neighbour(coord, n));
        }
        if has_river_neighbour(*grid, coord) {
            let n = choose|n: Coord|
                #[trigger] is_neighbour(coord, n) && grid.contains(n) && grid.at(n) == WorldCell2::Water(
                    WaterType::River,
                );
            lemma_neighbours(coord, n);
        }
    }
    found
}

/// The grid with the river widened by one cell: every cell next to river water, diagonals
/// included, becomes river water.
pub fn widen_river2(grid: &Grid<WorldCell2>) -> (out: Grid<WorldCell2>)
    requires
        grid.wf(),
    ensures
        out.wf(),
        out.spec_size() == grid.spec_size(),
        forall|c: Coord|
            #[trigger] out.contains(c) ==> out.at(c) == if has_river_neighbour(*grid, c) {
                WorldCell2::Water(WaterType::River)
            } else {
                grid.at(c)
            },
{
    let mut out = grid.copy();
    let n = grid.count();
    let mut i: usize = 0;
    while i < n
        invariant
            grid.wf(),
            out.wf(),
            out.spec_size() == grid.spec_size(),
            n == size_count(grid.spec_size()),
            i <= n,
            forall|c: Coord|
                #[trigger] out.contains(c) ==> out.at(c) == if index_of(grid.spec_size(), c) < i
                    && has_river_neighbour(*grid, c) {
                    WorldCell2::Water(WaterType::River)
                } else {
                    grid.at(c)
                },
        decreases n - i,
    {
        let coord = grid.coord_of_index(i);
        let ghost o0 = out;
        if river_neighbour(grid, coord) {
            out.set(coord, WorldCell2::Water(WaterType::River));
        }
        proof {
            assert forall|c: Coord| #[trigger] out.contains(c) implies out.at(c) == if index_of(
                grid.spec_size(),
                c,
            ) < i + 1 && has_river_neighbour(*grid, c) {
                WorldCell2::Water(WaterType::River)
            } else {
                grid.at(c)
            } by {
                lemma_index_bounds(grid.spec_size(), c);
                assert(o0.contains(c));
                if c != coord {
                    assert(out.at(c) == o0.at(c));
                    if index_of(grid.spec_size(), c) == i {
                        crate::grid::lemma_index_injective(grid.spec_size(), c, coord);
                    }
                }
            }
        }
        i = i + 1;
    }
    proof {
        assert forall|c: Coord| #[trigger] out.contains(c) implies index_of(grid.spec_size(), c) < n by {
            lemma_index_bounds(grid.spec_size(), c);
        }
    }
    out
}

/// The last point of `points`, among the first `n`, that lies in `inside`, if any.
pub open spec fn last_point_inside(points: Seq<Coord>, inside: Seq<Coord>, n: int) -> Option<Coord>
    decreases n,
{
    if n <= 0 {
        None
    } else if inside.contains(points[n - 1]) {
        Some(points[n - 1])
    } else {
        last_point_inside(points, inside, n - 1)
    }
}

fn vec_contains(v: &Vec<Coord>, c: Coord) -> (b: bool)
    ensures
        b == v@.contains(c),
{
    let mut k: usize = 0;
    while k < v.len()
        invariant
            k <= v@.len(),
            forall|j: int| 0 <= j < k ==> v@[j] != c,
        decreases v@.len() - k,
    {
        if v[k] == c {
            return true;
        }
        k = k + 1;
    }
    false
}

/// Where the river enters the city: the last point of the river, in the second grid, that
/// falls inside the city blob.
pub fn find_gate_centre(river_points: &Vec<Coord>, city_inside: &Vec<Coord>) -> (r: Option<Coord>)
    ensures
        r == last_point_inside(river_points@, city_inside@, river_points@.len() as int),
{
    let mut k: usize = river_points.len();
    while k > 0
        invariant
            k <= river_points@.len(),
            last_point_inside(river_points@, city_inside@, river_points@.len() as int) == last_point_inside(
                river_points@,
                city_inside@,
                k as int,
            ),
        decreases k,
    {
        let c = river_points[k - 1];
        if vec_contains(city_inside, c) {
            return Some(c);
        }
        k = k - 1;
    }
    None
}

/// The squared distance between two cells.
pub open spec fn distance2_spec(a: Coord, b: Coord) -> int {
    (a.x - b.x) * (a.x - b.x) + (a.y - b.y) * (a.y - b.y)
}

/// The cells of `border` closer than 20 cells to `centre` (squared distance below 400), in
/// order.
pub open spec fn gate_of(border: Seq<Coord>, centre: Coord) -> Seq<Coord> {
    border.filter(|c: Coord| distance2_spec(c, centre) < 400)
}

/// The cells of the city's border near where the river enters it: those within 20 cells of the
/// gate centre.
pub fn gate_cells(border: &Vec<Coord>, centre: Coord) -> (r: Vec<Coord>)
    requires
        forall|k: int| 0 <= k < border@.len() ==> coord_in_range(#[trigger] border@[k], -1000000, 1000000),
        coord_in_range(centre, -1000000, 1000000),
    ensures
        r@ == gate_of(border@, centre),
{
    let mut r: Vec<Coord> = Vec::new();
    let mut k: usize = 0;
    while k < border.len()
        invariant
            forall|j: int| 0 <= j < border@.len() ==> coord_in_range(#[trigger] border@[j], -1000000, 1000000),
            coord_in_range(centre, -1000000, 1000000),
            k <= border@.len(),
            r@ == gate_of(border@.take(k as int), centre),
        decreases border@.len() - k,
    {
        let c = border[k];
        assert(coord_in_range(border@[k as int], -1000000, 1000000));
        let dx = c.x as i64 - centre.x as i64;
        let dy = c.y as i64 - centre.y as i64;
        assert(dx * dx <= 4000000000000) by (nonlinear_arith)
            requires
                -2000000 <= dx <= 2000000,
        ;
        assert(dy * dy <= 4000000000000) by (nonlinear_arith)
            requires
                -2000000 <= dy <= 2000000,
        ;
        assert(0 <= dx * dx && 0 <= dy * dy) by (nonlinear_arith);
        let d2 = dx * dx + dy * dy;
        assert(border@.take(k + 1) =~= border@.take(k as int).push(c));
        proof {
            border@.take(k as int).lemma_filter_push(c, |c: Coord| distance2_spec(c, centre) < 400);
        }
        if d2 < 400 {
            r.push(c);
        }
        k = k + 1;
    }
    assert(border@.take(border@.len() as int) =~= border@);
    r
}


/// `c` lies within `n` steps of a cell of `cells`, each step to one of the eight neighbours
/// that lies in a grid of size `s`.
pub open spec fn river_reach(s: Size, cells: Seq<Coord>, n: nat, c: Coord) -> bool
    decreases n,
{
    if n == 0 {
        cells.contains(c)
    } else {
        river_reach(s, cells, (n - 1) as nat, c) || exists|d: Coord|
            #[trigger] is_neighbour(c, d) && size_contains(s, d) && river_reach(s, cells, (n - 1) as nat, d)
    }
}

proof fn lemma_last_point_inside(points: Seq<Coord>, inside: Seq<Coord>, n: int)
    requires
        0 <= n <= points.len(),
    ensures
        last_point_inside(points, inside, n) matches Some(c) ==> exists|k: int| 0 <= k < n && points[k] == c,
    decreases n,
{
    if n > 0 && !inside.contains(points[n - 1]) {
        lemma_last_point_inside(points, inside, n - 1);
    }
}

/// One of the blobs of `blobs` encloses `c`.
pub open spec fn in_some_blob(blobs: Seq<Blob>, c: Coord) -> bool {
    exists|t: int| 0 <= t < blobs.len() && (#[trigger] blobs[t]).inside@.contains(c)
}

/// The cell `c` of the second grid, with the river cells `cells` widened six times, the lake
/// and the towns' pools flooded with river water, and the ocean laid last.
pub open spec fn world2_cell(
    s: Size,
    cells: Seq<Coord>,
    lake: Seq<Coord>,
    towns: Seq<Blob>,
    ocean: Seq<Coord>,
    c: Coord,
) -> WorldCell2 {
    if ocean.contains(c) {
        WorldCell2::Water(WaterType::Ocean)
    } else if lake.contains(c) || in_some_blob(towns, c) || river_reach(s, cells, 6, c) {
        WorldCell2::Water(WaterType::River)
    } else {
        WorldCell2::Land
    }
}

fn copy_coords(v: &Vec<Coord>) -> (r: Vec<Coord>)
    ensures
        r@ == v@,
{
    let mut r: Vec<Coord> = Vec::new();
    let mut k: usize = 0;
    while k < v.len()
        invariant
            k <= v@.len(),
            r@ == v@.take(k as int),
        decreases v@.len() - k,
    {
        r.push(v[k]);
        k = k + 1;
        assert(r@ =~= v@.take(k as int));
    }
    assert(v@.take(v@.len() as int) =~= v@);
    r
}

fn all_in_grid(grid: &Grid<WorldCell2>, cells: &Vec<Coord>) -> (b: bool)
    requires
        grid.wf(),
    ensures
        b == forall|k: int| 0 <= k < cells@.len() ==> grid.contains(#[trigger] cells@[k]),
{
    let mut k: usize = 0;
    while k < cells.len()
        invariant
            grid.wf(),
            k <= cells@.len(),
            forall|j: int| 0 <= j < k ==> grid.contains(#[trigger] cells@[j]),
        decreases cells@.len() - k,
    {
        if !grid.is_valid(cells[k]) {
            return false;
        }
        k = k + 1;
    }
    true
}

proof fn lemma_widen_step(g: Grid<WorldCell2>, out: Grid<WorldCell2>, cells: Seq<Coord>, n: nat)
    requires
        out.spec_size() == g.spec_size(),
        forall|c: Coord|
            #[trigger] g.contains(c) ==> g.at(c) == if river_reach(g.spec_size(), cells, n, c) {
                WorldCell2::Water(WaterType::River)
            } else {
                WorldCell2::Land
            },
        forall|c: Coord|
            #[trigger] out.contains(c) ==> out.at(c) == if has_river_neighbour(g, c) {
                WorldCell2::Water(WaterType::River)
            } else {
                g.at(c)
            },
    ensures
        forall|c: Coord|
            #[trigger] out.contains(c) ==> out.at(c) == if river_reach(g.spec_size(), cells, n + 1, c) {
                WorldCell2::Water(WaterType::River)
            } else {
                WorldCell2::Land
            },
{
    let s = g.spec_size();
    assert forall|c: Coord| #[trigger] out.contains(c) implies out.at(c) == if river_reach(s, cells, n + 1, c) {
        WorldCell2::Water(WaterType::River)
    } else {
        WorldCell2::Land
    } by {
        assert(g.contains(c));
        if has_river_neighbour(g, c) {
            let d = choose|d: Coord|
                #[trigger] is_neighbour(c, d) && g.contains(d) && g.at(d) == WorldCell2::Water(WaterType::River);
            assert(river_reach(s, cells, n, d));
            assert(river_reach(s, cells, n + 1, c));
        } else {
            if exists|d: Coord| #[trigger] is_neighbour(c, d) && size_contains(s, d) && river_reach(s, cells, n, d) {
                let d = choose|d: Coord| #[trigger] is_neighbour(c, d) && size_contains(s, d) && river_reach(s, cells, n, d);
                assert(g.contains(d));
                assert(g.at(d) == WorldCell2::Water(WaterType::River));
            }
            assert(river_reach(s, cells, n + 1, c) == river_reach(s, cells, n, c));
        }
    }
}

/// The second world grid for the river `river` and the towns at `town_positions` of the first
/// grid of size `spec.size`, given the blobs of the lake, of the towns' pools and of the ocean.
/// Land everywhere; the river as straight lines between its points (taken to the second grid
/// and extended to the lake and the ocean), widened six times; the lake and each pool flooded
/// with river water; then ocean water wherever the ocean blob falls in the grid.
///
/// The player spawns at the lake, which is the river's first point. The swamp lies at the first
/// town and the city at the second, whose blob is the city's. `ocean_x_ofset` is the width
/// less 50. `gate` holds the cells of the city's border within 20 cells of the last river
/// point in the city. `None` when the river's lines leave the grid or no river point lies in the
/// city.
pub fn make_world_grid2(
    spec: &Spec,
    river: &Vec<Coord>,
    town_positions: &Vec<Coord>,
    lake: &Blob,
    towns: &Vec<Blob>,
    ocean: &Blob,
) -> (r: Option<World2>)
    requires
        spec.size.width * 3 + 170 <= 46340,
        spec.size.height * 3 + 400 <= 46340,
        river@.len() > 0,
        forall|k: int| 0 <= k < river@.len() ==> coord_in_range(#[trigger] river@[k], 0, 100000),
        town_positions@.len() >= 2,
        towns@.len() == town_positions@.len(),
        forall|k: int| 0 <= k < town_positions@.len() ==> coord_in_range(#[trigger] town_positions@[k], -1000000, 1000000),
        forall|k: int| 0 <= k < lake.inside@.len() ==> size_contains(world2_size_spec(spec.size), #[trigger] lake.inside@[k]),
        forall|t: int, k: int|
            0 <= t < towns@.len() && 0 <= k < towns@[t].inside@.len() ==> size_contains(
                world2_size_spec(spec.size),
                #[trigger] towns@[t].inside@[k],
            ),
        forall|k: int| 0 <= k < towns@[1].border@.len() ==> coord_in_range(#[trigger] towns@[1].border@[k], -1000000, 1000000),
    ensures
        ({
            let s = world2_size_spec(spec.size);
            let points = extended_river(river@).map_values(|c: Coord| scale_coord_spec(c));
            let cells = polyline_coords(points, points.len() as int);
            let centre = last_point_inside(points, towns@[1].inside@, points.len() as int);
            &&& r is None <==> (exists|k: int| 0 <= k < cells.len() && !size_contains(s, #[trigger] cells[k]))
                || centre is None
            &&& r matches Some(w) ==> {
                &&& w.grid.wf()
                &&& w.grid.spec_size() == s
                &&& forall|c: Coord|
                    #[trigger] w.grid.contains(c) ==> w.grid.at(c) == world2_cell(
                        s,
                        cells,
                        lake.inside@,
                        towns@,
                        ocean.inside@,
                        c,
                    )
                &&& w.spawn == points[0]
                &&& w.lake_centre == points[0]
                &&& w.swamp_centre == scale_coord_spec(town_positions@[0])
                &&& w.city_centre == scale_coord_spec(town_positions@[1])
                &&& w.ocean_x_ofset == s.width - 50
                &&& w.city_blob.border@ == towns@[1].border@
                &&& w.city_blob.inside@ == towns@[1].inside@
                &&& w.gate@ == gate_of(towns@[1].border@, centre->0)
            }
        }),
{
    let size = world2_size(spec.size);
    let ghost s = size;
    proof {
        assert(size_count(size) <= usize::MAX) by (nonlinear_arith)
            requires
                size.width <= 46340,
                size.height <= 46340,
                size_count(size) == size.width * size.height,
        ;
    }
    let mut grid = Grid::new_copy(size, WorldCell2::Land);
    let points = world2_river_points(river);
    let ghost ps = points@;
    proof {
        assert forall|k: int| 0 <= k < ps.len() implies coord_in_range(#[trigger] ps[k], -1073741824, 1073741824) by {
            let e = extended_river(river@);
            if k == 0 {
            } else if k < ps.len() - 1 {
                assert(e[k] == river@[k - 1]);
            } else {
                assert(e[k] == e.last());
            }
        }
    }
    let cells = river_line_cells(&points);
    if !all_in_grid(&grid, &cells) {
        return None;
    }
    let gate_centre = match find_gate_centre(&points, &towns[1].inside) {
        Some(c) => c,
        None => {
            return None;
        },
    };
    let ghost g0 = grid;
    paint_river2(&mut grid, &cells);
    proof {
        assert forall|c: Coord| #[trigger] grid.contains(c) implies grid.at(c) == if river_reach(s, cells@, 0, c) {
            WorldCell2::Water(WaterType::River)
        } else {
            WorldCell2::Land
        } by {
            assert(g0.contains(c));
        }
    }
    let mut round: usize = 0;
    while round < 6
        invariant
            round <= 6,
            grid.wf(),
            grid.spec_size() == s,
            forall|c: Coord|
                #[trigger] grid.contains(c) ==> grid.at(c) == if river_reach(s, cells@, round as nat, c) {
                    WorldCell2::Water(WaterType::River)
                } else {
                    WorldCell2::Land
                },
        decreases 6 - round,
    {
        let next = widen_river2(&grid);
        proof {
            lemma_widen_step(grid, next, cells@, round as nat);
        }
        grid = next;
        round = round + 1;
    }
    let ghost g6 = grid;
    set_cells(&mut grid, &lake.inside, WorldCell2::Water(WaterType::River));
    proof {
        assert forall|c: Coord| #[trigger] grid.contains(c) implies grid.at(c) == if lake.inside@.contains(c)
            || in_some_blob(towns@.take(0), c) || river_reach(s, cells@, 6, c) {
            WorldCell2::Water(WaterType::River)
        } else {
            WorldCell2::Land
        } by {
            assert(g6.contains(c));
            assert(!in_some_blob(towns@.take(0), c));
        }
    }
    let mut t: usize = 0;
    while t < towns.len()
        invariant
            t <= towns@.len(),
            grid.wf(),
            grid.spec_size() == s,
            s == world2_size_spec(spec.size),
            forall|t: int, k: int|
                0 <= t < towns@.len() && 0 <= k < towns@[t].inside@.len() ==> size_contains(
                    s,
                    #[trigger] towns@[t].inside@[k],
                ),
            forall|c: Coord|
                #[trigger] grid.contains(c) ==> grid.at(c) == if lake.inside@.contains(c) || in_some_blob(
                    towns@.take(t as int),
                    c,
                ) || river_reach(s, cells@, 6, c) {
                    WorldCell2::Water(WaterType::River)
                } else {
                    WorldCell2::Land
                },
        decreases towns@.len() - t,
    {
        let ghost before = grid;
        assert forall|k: int| 0 <= k < towns@[t as int].inside@.len() implies grid.contains(
            #[trigger] towns@[t as int].inside@[k],
        ) by {
            assert(size_contains(s, towns@[t as int].inside@[k]));
        }
        set_cells(&mut grid, &towns[t].inside, WorldCell2::Water(WaterType::River));
        proof {
            assert forall|c: Coord| #[trigger] grid.contains(c) implies grid.at(c) == if lake.inside@.contains(c)
                || in_some_blob(towns@.take(t + 1), c) || river_reach(s, cells@, 6, c) {
                WorldCell2::Water(WaterType::River)
            } else {
                WorldCell2::Land
            } by {
                assert(before.contains(c));
                let a = towns@.take(t as int);
                let b = towns@.take(t + 1);
                if in_some_blob(a, c) {
                    let u = choose|u: int| 0 <= u < a.len() && (#[trigger] a[u]).inside@.contains(c);
                    assert(b[u] == a[u]);
                }
                if in_some_blob(b, c) {
                    let u = choose|u: int| 0 <= u < b.len() && (#[trigger] b[u]).inside@.contains(c);
                    if u < t {
                        assert(a[u] == b[u]);
                    }
                }
                if towns@[t as int].inside@.contains(c) {
                    assert(b[t as int] == towns@[t as int]);
                }
            }
        }
        t = t + 1;
    }
    proof {
        assert(towns@.take(towns@.len() as int) =~= towns@);
    }
    let ghost g7 = grid;
    set_cells_inside(&mut grid, &ocean.inside, WorldCell2::Water(WaterType::Ocean));
    let city_blob = Blob { border: copy_coords(&towns[1].border), inside: copy_coords(&towns[1].inside) };
    proof {
        let e = extended_river(river@);
        assert(coord_in_range(gate_centre, -1000000, 1000000)) by {
            lemma_last_point_inside(ps, towns@[1].inside@, ps.len() as int);
            let k = choose|k: int| 0 <= k < ps.len() && ps[k] == gate_centre;
            assert(ps[k] == scale_coord_spec(e[k]));
            if k == 0 {
            } else if k < ps.len() - 1 {
                assert(e[k] == river@[k - 1]);
            } else {
                assert(e[k] == e.last());
            }
        }
    }
    let gate = gate_cells(&towns[1].border, gate_centre);
    proof {
        assert forall|c: Coord| #[trigger] grid.contains(c) implies grid.at(c) == world2_cell(
            s,
            cells@,
            lake.inside@,
            towns@,
            ocean.inside@,
            c,
        ) by {
            assert(g7.contains(c));
        }
        assert(points@[0] == ps[0]);
        assert(size.width - 50 == s.width - 50);
    }
    Some(World2 {
        spawn: points[0],
        ocean_x_ofset: size.width - 50,
        grid,
        lake_centre: points[0],
        swamp_centre: scale_coord(town_positions[0]),
        city_centre: scale_coord(town_positions[1]),
        city_blob,
        gate,
    })
}

} // verus!
