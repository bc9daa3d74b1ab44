//! Ship hulls: open floor enclosed by walls, in the middle of space. A hull is grown from a
//! grid of open and closed cells: the grid is wrapped in closed cells, closed cells that touch
//! an open cell become walls and the others space, and the result is accepted when it has
//! enough floor and fills its grid.
use crate::connectivity::{
    adjacent, lemma_closed_set_contains_reachable, lemma_reach_ends_open, lemma_reach_refl,
    lemma_reach_step, lemma_reach_sym, lemma_reach_trans, reachable,
};
use crate::doors::row_major;
use crate::geometry::{
    all_directions, coord_plus, direction_delta, is_neighbour, lemma_neighbours, Coord, Direction,
    Size,
};
use crate::grid::{
    coord_at_index, count_true, index_of, lemma_count_true_bound, lemma_count_true_update,
    lemma_index_bounds, size_count, Grid,
};
use std::collections::VecDeque;
use vstd::prelude::*;

verus! {

/// A cell of a hull.
#[derive(Clone, Copy, Debug, PartialEq, Eq, Structural)]
pub enum HullCell {
    Wall,
    Floor,
    Space,
}

/// A cell of the grid a hull is grown from.
#[derive(Clone, Copy, Debug, PartialEq, Eq, Structural)]
pub enum GenerationCell {
    Closed,
    Open,
}

/// The cell at column `x` of row `y` of a template made of rows of `'.'` (open) and `'#'`
/// (closed): closed where the row has a `'#'`, open everywhere else.
pub open spec fn template_cell(rows: Seq<&str>, x: int, y: int) -> GenerationCell {
    if 0 <= y < rows.len() && 0 <= x < rows[y]@.len() && rows[y]@[x] == '#' {
        GenerationCell::Closed
    } else {
        GenerationCell::Open
    }
}

/// The grid drawn by a template: as wide as its first row, with one grid row per template row;
/// `'#'` marks a closed cell and `'.'` an open one, and cells past the end of a shorter row
/// stay open. Every character must be `'.'` or `'#'`, and no row may be longer than the
/// first.
pub fn input_grid_from_strs(input: &Vec<&str>) -> (g: Grid<GenerationCell>)
    requires
        input@.len() > 0,
        input@.len() <= i32::MAX,
        input@[0]@.len() <= i32::MAX,
        input@[0]@.len() * input@.len() <= usize::MAX,
        forall|y: int| 0 <= y < input@.len() ==> (#[trigger] input@[y])@.len() <= input@[0]@.len(),
        forall|y: int, x: int|
            0 <= y < input@.len() && 0 <= x < input@[y]@.len() ==> (#[trigger] input@[y]@[x] == '.'
                || input@[y]@[x] == '#'),
    ensures
        g.wf(),
        g.spec_size() == (Size { width: input@[0]@.len() as u32, height: input@.len() as u32 }),
        forall|c: Coord| #[trigger] g.contains(c) ==> g.at(c) == template_cell(input@, c.x as int, c.y as int),
{
    let width = input[0].unicode_len();
    let height = input.len();
    let size = Size::new(width as u32, height as u32);
    let mut grid = Grid::new_copy(size, GenerationCell::Open);
    let mut y: usize = 0;
    while y < height
        invariant
            grid.wf(),
            grid.spec_size() == size,
            size.width == input@[0]@.len(),
            size.height == input@.len(),
            height == input@.len(),
            y <= height,
            forall|y: int| 0 <= y < input@.len() ==> (#[trigger] input@[y])@.len() <= input@[0]@.len(),
            forall|y: int, x: int|
                0 <= y < input@.len() && 0 <= x < input@[y]@.len() ==> (#[trigger] input@[y]@[x] == '.'
                    || input@[y]@[x] == '#'),
            forall|c: Coord|
                #[trigger] grid.contains(c) ==> grid.at(c) == if c.y < y {
                    template_cell(input@, c.x as int, c.y as int)
                } else {
                    GenerationCell::Open
                },
        decreases height - y,
    {
        let row = input[y];
        let n = row.unicode_len();
        assert(input@[y as int]@.len() <= input@[0]@.len());
        let mut x: usize = 0;
        while x < n
            invariant
                grid.wf(),
                grid.spec_size() == size,
                size.width == input@[0]@.len(),
                size.height == input@.len(),
                height == input@.len(),
                y < height,
                row == input@[y as int],
                n == row@.len(),
                n <= size.width,
                x <= n,
                forall|y: int, x: int|
                    0 <= y < input@.len() && 0 <= x < input@[y]@.len() ==> (#[trigger] input@[y]@[x] == '.'
                        || input@[y]@[x] == '#'),
                forall|c: Coord|
                    #[trigger] grid.contains(c) ==> grid.at(c) == if c.y < y || (c.y == y && c.x < x) {
                        template_cell(input@, c.x as int, c.y as int)
                    } else {
                        GenerationCell::Open
                    },
            decreases n - x,
        {
            let ch = row.get_char(x);
            assert(input@[y as int]@[x as int] == '.' || input@[y as int]@[x as int] == '#');
            let cell = if ch == '#' {
                GenerationCell::Closed
            } else {
                GenerationCell::Open
            };
            let coord = Coord::new(x as i32, y as i32);
            let ghost before = grid;
            grid.set(coord, cell);
            proof {
                assert forall|c: Coord| #[trigger] grid.contains(c) implies grid.at(c) == if c.y < y || (c.y == y
                    && c.x < x + 1) {
                    template_cell(input@, c.x as int, c.y as int)
                } else {
                    GenerationCell::Open
                } by {
                    assert(before.contains(c));
                }
            }
            x = x + 1;
        }
        proof {
            assert forall|c: Coord| #[trigger] grid.contains(c) implies grid.at(c) == if c.y < y + 1 {
                template_cell(input@, c.x as int, c.y as int)
            } else {
                GenerationCell::Open
            } by {
                if c.y == y && c.x >= n {
                    assert(template_cell(input@, c.x as int, c.y as int) == GenerationCell::Open);
                }
            }
        }
        y = y + 1;
    }
    grid
}

/// The cell of `g` at `c`, or closed outside the grid.
pub open spec fn closed_outside(g: Grid<GenerationCell>, c: Coord) -> GenerationCell {
    if g.contains(c) {
        g.at(c)
    } else {
        GenerationCell::Closed
    }
}

/// The grid wrapped in a border of closed cells: two cells wider and taller, with the cell at
/// `c` that of the grid at `c - (1, 1)`.
pub fn wrap_in_closed_area(grid: &Grid<GenerationCell>) -> (g: Grid<GenerationCell>)
    requires
        grid.wf(),
        grid.spec_size().width + 2 <= i32::MAX,
        grid.spec_size().height + 2 <= i32::MAX,
        (grid.spec_size().width + 2) * (grid.spec_size().height + 2) <= usize::MAX,
    ensures
        g.wf(),
        g.spec_size() == (Size { width: (grid.spec_size().width + 2) as u32, height: (grid.spec_size().height + 2) as u32 }),
        forall|c: Coord|
            #[trigger] g.contains(c) ==> g.at(c) == closed_outside(*grid, Coord { x: (c.x - 1) as i32, y: (c.y - 1) as i32 }),
{
    let size = grid.size();
    let outer = Size::new(size.width + 2, size.height + 2);
    let mut g = Grid::new_copy(outer, GenerationCell::Closed);
    let n = grid.count();
    let mut i: usize = 0;
    while i < n
        invariant
            grid.wf(),
            g.wf(),
            size == grid.spec_size(),
            g.spec_size() == outer,
            outer.width == size.width + 2,
            outer.height == size.height + 2,
            outer.width <= i32::MAX,
            outer.height <= i32::MAX,
            n == size_count(size),
            i <= n,
            forall|c: Coord|
                #[trigger] g.contains(c) ==> g.at(c) == if grid.contains(Coord { x: (c.x - 1) as i32, y: (c.y - 1) as i32 })
                    && index_of(size, Coord { x: (c.x - 1) as i32, y: (c.y - 1) as i32 }) < i {
                    grid.at(Coord { x: (c.x - 1) as i32, y: (c.y - 1) as i32 })
                } else {
                    GenerationCell::Closed
                },
        decreases n - i,
    {
        let c = grid.coord_of_index(i);
        let cell = *grid.get_checked(c);
        let d = Coord::new(c.x + 1, c.y + 1);
        let ghost before = g;
        g.set(d, cell);
        proof {
            assert forall|e: Coord| #[trigger] g.contains(e) implies g.at(e) == if grid.contains(Coord { x: (e.x - 1) as i32, y: (e.y - 1) as i32 })
                && index_of(size, Coord { x: (e.x - 1) as i32, y: (e.y - 1) as i32 }) < i + 1 {
                grid.at(Coord { x: (e.x - 1) as i32, y: (e.y - 1) as i32 })
            } else {
                GenerationCell::Closed
            } by {
                let p = Coord { x: (e.x - 1) as i32, y: (e.y - 1) as i32 };
                assert(before.contains(e));
                if grid.contains(p) {
                    lemma_index_bounds(size, p);
                    if index_of(size, p) == i {
                        crate::grid::lemma_index_injective(size, p, c);
                        assert(e == d);
                    }
                }
                if e == d {
                    assert(p == c);
                }
            }
        }
        i = i + 1;
    }
    proof {
        assert forall|c: Coord| #[trigger] g.contains(c) implies g.at(c) == closed_outside(*grid, Coord { x: (c.x - 1) as i32, y: (c.y - 1) as i32 }) by {
            let p = Coord { x: (c.x - 1) as i32, y: (c.y - 1) as i32 };
            if grid.contains(p) {
                lemma_index_bounds(size, p);
            }
        }
    }
    g
}

/// One of the eight cells around `c` is an open cell of the grid.
pub open spec fn touches_open(g: Grid<GenerationCell>, c: Coord) -> bool {
    exists|j: int|
        0 <= j < 8 && {
            let m = #[trigger] coord_plus(c, direction_delta(all_directions()[j]));
            g.contains(m) && g.at(m) == GenerationCell::Open
        }
}

/// The hull cell that a generation cell becomes: open cells are floor, closed cells next to
/// an open cell (by a side or a corner) are walls, and the other closed cells are space.
pub open spec fn stripped_cell(g: Grid<GenerationCell>, c: Coord) -> HullCell {
    match g.at(c) {
        GenerationCell::Open => HullCell::Floor,
        GenerationCell::Closed => if touches_open(g, c) {
            HullCell::Wall
        } else {
            HullCell::Space
        },
    }
}

fn touches_open_cell(g: &Grid<GenerationCell>, c: Coord) -> (b: bool)
    requires
        g.wf(),
        g.contains(c),
    ensures
        b == touches_open(*g, c),
{
    let directions = Direction::all();
    let mut k: usize = 0;
    while k < 8
        invariant
            g.wf(),
            g.contains(c),
            directions@ == all_directions(),
            k <= 8,
            forall|j: int|
                0 <= j < k ==> {
                    let m = #[trigger] coord_plus(c, direction_delta(all_directions()[j]));
                    !(g.contains(m) && g.at(m) == GenerationCell::Open)
                },
        decreases 8 - k,
    {
        let m = c.plus(directions[k].coord());
        if let Some(cell) = g.get(m) {
            if *cell == GenerationCell::Open {
                assert(coord_plus(c, direction_delta(all_directions()[k as int])) == m);
                return true;
            }
        }
        k = k + 1;
    }
    false
}

/// The hull grown from the grid: open cells become floor, closed cells next to an open cell
/// (by a side or a corner) become walls, and the other closed cells become space.
pub fn strip_walls_from_outside(grid: &Grid<GenerationCell>) -> (h: Grid<HullCell>)
    requires
        grid.wf(),
    ensures
        h.wf(),
        h.spec_size() == grid.spec_size(),
        forall|c: Coord| #[trigger] h.contains(c) ==> h.at(c) == stripped_cell(*grid, c),
{
    let size = grid.size();
    let n = grid.count();
    let mut h = Grid::new_copy(size, HullCell::Space);
    let mut i: usize = 0;
    while i < n
        invariant
            grid.wf(),
            h.wf(),
            size == grid.spec_size(),
            h.spec_size() == size,
            n == size_count(size),
            i <= n,
            forall|c: Coord|
                #[trigger] h.contains(c) ==> h.at(c) == if index_of(size, c) < i {
                    stripped_cell(*grid, c)
                } else {
                    HullCell::Space
                },
        decreases n - i,
    {
        let c = grid.coord_of_index(i);
        let cell = match *grid.get_checked(c) {
            GenerationCell::Open => HullCell::Floor,
            GenerationCell::Closed => if touches_open_cell(grid, c) {
                HullCell::Wall
            } else {
                HullCell::Space
            },
        };
        let ghost before = h;
        h.set(c, cell);
        proof {
            assert forall|e: Coord| #[trigger] h.contains(e) implies h.at(e) == if index_of(size, e) < i + 1 {
                stripped_cell(*grid, e)
            } else {
                HullCell::Space
            } by {
                assert(before.contains(e));
                if e != c {
                    lemma_index_bounds(size, e);
                    if index_of(size, e) == i {
                        crate::grid::lemma_index_injective(size, e, c);
                    }
                }
            }
        }
        i = i + 1;
    }
    proof {
        assert forall|c: Coord| #[trigger] h.contains(c) implies h.at(c) == stripped_cell(*grid, c) by {
            lemma_index_bounds(size, c);
        }
    }
    h
}

/// The hull with every cell outside its grid read as space: as the grid has the same size,
/// this is a copy of the hull.
pub fn surround_by_space(grid: &Grid<HullCell>) -> (h: Grid<HullCell>)
    requires
        grid.wf(),
    ensures
        h.wf(),
        h.spec_size() == grid.spec_size(),
        forall|c: Coord| #[trigger] h.contains(c) ==> h.at(c) == grid.at(c),
{
    grid.copy()
}

/// `mn` and `mx` are the corners of the smallest box that holds every cell of the hull other
/// than space.
pub open spec fn is_bounding_box(hull: Grid<HullCell>, mn: Coord, mx: Coord) -> bool {
    &&& forall|c: Coord|
        #[trigger] hull.contains(c) && hull.at(c) != HullCell::Space ==> mn.x <= c.x <= mx.x && mn.y <= c.y
            <= mx.y
    &&& exists|c: Coord| #[trigger] hull.contains(c) && hull.at(c) != HullCell::Space && c.x == mn.x
    &&& exists|c: Coord| #[trigger] hull.contains(c) && hull.at(c) != HullCell::Space && c.x == mx.x
    &&& exists|c: Coord| #[trigger] hull.contains(c) && hull.at(c) != HullCell::Space && c.y == mn.y
    &&& exists|c: Coord| #[trigger] hull.contains(c) && hull.at(c) != HullCell::Space && c.y == mx.y
}

/// The extent of the hull: the size from the top-left to the bottom-right corner of the
/// smallest box that holds every cell other than space (a one-cell hull has extent zero).
/// The hull must have a cell other than space, or no cell at all.
pub fn hull_bounding_box(hull: &Grid<HullCell>) -> (r: Size)
    requires
        hull.wf(),
        (exists|c: Coord| #[trigger] hull.contains(c) && hull.at(c) != HullCell::Space) || (hull.spec_size().width
            == 0 && hull.spec_size().height == 0),
    ensures
        (exists|c: Coord| #[trigger] hull.contains(c) && hull.at(c) != HullCell::Space) ==> exists|mn: Coord, mx: Coord|
            #[trigger] is_bounding_box(*hull, mn, mx) && r.width == mx.x - mn.x && r.height == mx.y - mn.y,
        hull.spec_size().width == 0 && hull.spec_size().height == 0 ==> r.width == 0 && r.height == 0,
{
    let size = hull.size();
    let mut min_w = size.width;
    let mut min_h = size.height;
    let mut max_w: u32 = 0;
    let mut max_h: u32 = 0;
    let n = hull.count();
    let mut found = false;
    let mut i: usize = 0;
    while i < n
        invariant
            hull.wf(),
            size == hull.spec_size(),
            n == size_count(size),
            i <= n,
            min_w <= size.width,
            min_h <= size.height,
            found ==> min_w <= max_w && min_h <= max_h,
            !found ==> min_w == size.width && min_h == size.height && max_w == 0 && max_h == 0,
            forall|c: Coord|
                #[trigger] hull.contains(c) && hull.at(c) != HullCell::Space && index_of(size, c) < i ==> min_w
                    <= c.x <= max_w && min_h <= c.y <= max_h,
            found ==> exists|c: Coord| #[trigger] hull.contains(c) && hull.at(c) != HullCell::Space && c.x == min_w,
            found ==> exists|c: Coord| #[trigger] hull.contains(c) && hull.at(c) != HullCell::Space && c.x == max_w,
            found ==> exists|c: Coord| #[trigger] hull.contains(c) && hull.at(c) != HullCell::Space && c.y == min_h,
            found ==> exists|c: Coord| #[trigger] hull.contains(c) && hull.at(c) != HullCell::Space && c.y == max_h,
            found <==> exists|c: Coord| #[trigger] hull.contains(c) && hull.at(c) != HullCell::Space && index_of(size, c) < i,
        decreases n - i,
    {
        let c = hull.coord_of_index(i);
        proof {
            lemma_index_bounds(size, c);
        }
        if *hull.get_checked(c) != HullCell::Space {
            let x = c.x as u32;
            let y = c.y as u32;
            if x < min_w {
                min_w = x;
            }
            if y < min_h {
                min_h = y;
            }
            if x > max_w {
                max_w = x;
            }
            if y > max_h {
                max_h = y;
            }
            found = true;
        }
        proof {
            assert forall|e: Coord|
                #[trigger] hull.contains(e) && hull.at(e) != HullCell::Space && index_of(size, e) < i + 1 implies min_w
                    <= e.x <= max_w && min_h <= e.y <= max_h by {
                if index_of(size, e) == i {
                    lemma_index_bounds(size, e);
                    crate::grid::lemma_index_injective(size, e, c);
                }
            }
        }
        i = i + 1;
    }
    proof {
        if exists|c: Coord| #[trigger] hull.contains(c) && hull.at(c) != HullCell::Space {
            let c = choose|c: Coord| #[trigger] hull.contains(c) && hull.at(c) != HullCell::Space;
            lemma_index_bounds(size, c);
            assert(found);
            assert forall|e: Coord| #[trigger] hull.contains(e) && hull.at(e) != HullCell::Space implies min_w <= e.x
                <= max_w && min_h <= e.y <= max_h by {
                lemma_index_bounds(size, e);
            }
            let mn = Coord { x: min_w as i32, y: min_h as i32 };
            let mx = Coord { x: max_w as i32, y: max_h as i32 };
            assert(is_bounding_box(*hull, mn, mx));
        }
    }
    Size { width: max_w - min_w, height: max_h - min_h }
}


/// `c` is an open cell of the grid.
pub open spec fn is_open_cell(g: Grid<GenerationCell>, c: Coord) -> bool {
    g.contains(c) && g.at(c) == GenerationCell::Open
}

/// The open cells of the grid, as a set.
pub open spec fn open_of(g: Grid<GenerationCell>) -> spec_fn(Coord) -> bool {
    |c: Coord| is_open_cell(g, c)
}

/// A path of open cells, each sharing a side or a corner with the next, leads from `a` to `b`.
pub open spec fn open_reachable(g: Grid<GenerationCell>, a: Coord, b: Coord) -> bool {
    reachable(open_of(g), true, a, b)
}

/// `c` can be reached over open cells from one of the first `i` cells in row-major order.
pub open spec fn area_reached_before(g: Grid<GenerationCell>, i: int, c: Coord) -> bool {
    exists|j: int|
        0 <= j < i && #[trigger] open_reachable(g, coord_at_index(g.spec_size().width as int, j), c)
}

/// The `j`-th cell in row-major order is the first cell of its area.
pub open spec fn is_area_start(g: Grid<GenerationCell>, j: int) -> bool {
    let c = coord_at_index(g.spec_size().width as int, j);
    is_open_cell(g, c) && !area_reached_before(g, j, c)
}

/// The number of areas whose first cell is among the first `i` cells in row-major order.
pub open spec fn areas_before(g: Grid<GenerationCell>, i: int) -> nat
    decreases i,
{
    if i <= 0 {
        0
    } else {
        areas_before(g, i - 1) + if is_area_start(g, i - 1) {
            1nat
        } else {
            0nat
        }
    }
}

/// The number of areas of the grid: regions of open cells connected through shared sides or
/// corners.
pub open spec fn num_areas(g: Grid<GenerationCell>) -> nat {
    areas_before(g, size_count(g.spec_size()))
}

/// The position in row-major order of the first cell of the area of `x`.
pub open spec fn area_start_of(g: Grid<GenerationCell>, x: Coord) -> int {
    choose|j: int|
        0 <= j < size_count(g.spec_size()) && is_area_start(g, j) && #[trigger] open_reachable(
            g,
            coord_at_index(g.spec_size().width as int, j),
            x,
        )
}

/// The area of the open cell `x`: areas are numbered from 0 in the row-major order of their
/// first cells.
pub open spec fn area_of(g: Grid<GenerationCell>, x: Coord) -> nat {
    areas_before(g, area_start_of(g, x))
}

/// Every open cell next (by a side or a corner) to `x` is marked.
pub open spec fn open_closed_at(g: Grid<GenerationCell>, seen: Grid<bool>, x: Coord) -> bool {
    forall|n: Coord| is_open_cell(g, n) && #[trigger] is_neighbour(x, n) ==> seen.at(n)
}

proof fn lemma_areas_before_monotonic(g: Grid<GenerationCell>, i: int, j: int)
    requires
        0 <= i <= j,
    ensures
        areas_before(g, i) <= areas_before(g, j),
        i < j && is_area_start(g, i) ==> areas_before(g, i) < areas_before(g, j),
    decreases j - i,
{
    if i < j {
        lemma_areas_before_monotonic(g, i, j - 1);
        assert(areas_before(g, j) == areas_before(g, j - 1) + if is_area_start(g, j - 1) {
            1nat
        } else {
            0nat
        });
    }
}

proof fn lemma_areas_before_bound(g: Grid<GenerationCell>, i: int)
    requires
        i >= 0,
    ensures
        areas_before(g, i) <= i,
    decreases i,
{
    if i > 0 {
        lemma_areas_before_bound(g, i - 1);
    }
}

/// Two area starts that reach the same cell are the same start.
proof fn lemma_area_start_unique(g: Grid<GenerationCell>, j1: int, j2: int, x: Coord)
    requires
        g.wf(),
        0 <= j1 < size_count(g.spec_size()),
        0 <= j2 < size_count(g.spec_size()),
        is_area_start(g, j1),
        is_area_start(g, j2),
        open_reachable(g, coord_at_index(g.spec_size().width as int, j1), x),
        open_reachable(g, coord_at_index(g.spec_size().width as int, j2), x),
    ensures
        j1 == j2,
{
    let w = g.spec_size().width as int;
    let open = open_of(g);
    let c1 = coord_at_index(w, j1);
    let c2 = coord_at_index(w, j2);
    lemma_reach_sym(open, true, c2, x);
    lemma_reach_trans(open, true, c1, x, c2);
    lemma_reach_sym(open, true, c1, x);
    lemma_reach_trans(open, true, c2, x, c1);
    if j1 < j2 {
        assert(open_reachable(g, coord_at_index(g.spec_size().width as int, j1), c2));
        assert(area_reached_before(g, j2, c2));
    } else if j2 < j1 {
        assert(open_reachable(g, coord_at_index(g.spec_size().width as int, j2), c1));
        assert(area_reached_before(g, j1, c1));
    }
}

/// A cell reached from one of the first `i` cells is reached from an area start among them.
proof fn lemma_area_start_exists(g: Grid<GenerationCell>, i: int, x: Coord)
    requires
        g.wf(),
        i <= size_count(g.spec_size()),
        area_reached_before(g, i, x),
    ensures
        exists|j: int|
            0 <= j < i && is_area_start(g, j) && #[trigger] open_reachable(
                g,
                coord_at_index(g.spec_size().width as int, j),
                x,
            ),
    decreases i,
{
    let w = g.spec_size().width as int;
    let open = open_of(g);
    let j = choose|j: int| 0 <= j < i && #[trigger] open_reachable(g, coord_at_index(w, j), x);
    let c = coord_at_index(w, j);
    lemma_reach_ends_open(open, true, c, x);
    if !is_area_start(g, j) {
        assert(area_reached_before(g, j, c));
        let j2 = choose|j2: int| 0 <= j2 < j && #[trigger] open_reachable(g, coord_at_index(w, j2), c);
        lemma_reach_trans(open, true, coord_at_index(w, j2), c, x);
        assert(open_reachable(g, coord_at_index(w, j2), x));
        lemma_area_start_exists(g, j, x);
    }
}

/// The area of a cell reached from the area start `j` is the number of areas that start
/// before `j`.
proof fn lemma_area_of_start(g: Grid<GenerationCell>, j: int, x: Coord)
    requires
        g.wf(),
        0 <= j < size_count(g.spec_size()),
        is_area_start(g, j),
        open_reachable(g, coord_at_index(g.spec_size().width as int, j), x),
    ensures
        area_start_of(g, x) == j,
        area_of(g, x) == areas_before(g, j),
{
    let k = area_start_of(g, x);
    lemma_area_start_unique(g, j, k, x);
}

/// Marks every open cell reachable from `start` as seen and labels it with the area `id`.
fn label_area(
    grid: &Grid<GenerationCell>,
    seen: &mut Grid<bool>,
    labels: &mut Grid<Option<usize>>,
    start: Coord,
    id: usize,
)
    requires
        grid.wf(),
        old(seen).wf(),
        old(seen).spec_size() == grid.spec_size(),
        old(labels).wf(),
        old(labels).spec_size() == grid.spec_size(),
        is_open_cell(*grid, start),
        !old(seen).at(start),
        forall|x: Coord| #[trigger] old(seen).contains(x) && old(seen).at(x) ==> !open_reachable(*grid, start, x),
    ensures
        final(seen).wf(),
        final(seen).spec_size() == grid.spec_size(),
        forall|x: Coord|
            #[trigger] final(seen).contains(x) ==> (final(seen).at(x) == (old(seen).at(x)
                || open_reachable(*grid, start, x))),
        final(labels).wf(),
        final(labels).spec_size() == grid.spec_size(),
        forall|x: Coord|
            #![trigger final(labels).at(x)]
            final(labels).contains(x) ==> final(labels).at(x) == if !old(seen).at(x) && open_reachable(
                *grid,
                start,
                x,
            ) {
                Some(id)
            } else {
                old(labels).at(x)
            },
{
    let ghost s0 = *seen;
    let ghost l0 = *labels;
    let ghost open = open_of(*grid);
    let n = grid.count();
    let directions = Direction::all();
    proof {
        lemma_reach_refl(open, true, start);
        lemma_count_true_bound(seen.spec_cells());
        lemma_index_bounds(seen.spec_size(), start);
        lemma_count_true_update(seen.spec_cells(), index_of(seen.spec_size(), start));
    }
    seen.set(start, true);
    labels.set(start, Some(id));
    let mut to_visit: VecDeque<Coord> = VecDeque::new();
    to_visit.push_front(start);
    proof {
        assert forall|x: Coord| #![trigger labels.at(x)] labels.contains(x) implies labels.at(x) == if seen.at(x)
            && !s0.at(x) {
            Some(id)
        } else {
            l0.at(x)
        } by {
            if x != start {
                assert(seen.at(x) == s0.at(x));
            }
        }
        lemma_count_true_bound(seen.spec_cells());
        assert(to_visit@[0] == start);
        assert forall|x: Coord|
            #[trigger] seen.contains(x) && seen.at(x) && !s0.at(x) && !to_visit@.contains(x)
                implies open_closed_at(*grid, *seen, x) by {
            if x != start {
                assert(seen.at(x) == s0.at(x));
            }
        }
    }
    while to_visit.len() > 0
        invariant
            grid.wf(),
            labels.wf(),
            labels.spec_size() == grid.spec_size(),
            forall|x: Coord|
                #![trigger labels.at(x)]
                labels.contains(x) ==> labels.at(x) == if seen.at(x) && !s0.at(x) {
                    Some(id)
                } else {
                    l0.at(x)
                },
            seen.wf(),
            seen.spec_size() == grid.spec_size(),
            s0.wf(),
            s0.spec_size() == grid.spec_size(),
            n == size_count(grid.spec_size()),
            directions@ == all_directions(),
            open == open_of(*grid),
            is_open_cell(*grid, start),
            seen.at(start),
            !s0.at(start),
            count_true(seen.spec_cells()) <= n,
            forall|x: Coord| #[trigger] s0.contains(x) && s0.at(x) ==> !open_reachable(*grid, start, x),
            forall|x: Coord| #[trigger] seen.contains(x) && s0.at(x) ==> seen.at(x),
            forall|x: Coord|
                #[trigger] seen.contains(x) && seen.at(x) && !s0.at(x) ==> open_reachable(*grid, start, x),
            forall|k: int|
                0 <= k < to_visit@.len() ==> {
                    let x = #[trigger] to_visit@[k];
                    seen.contains(x) && seen.at(x) && !s0.at(x)
                },
            forall|x: Coord|
                #[trigger] seen.contains(x) && seen.at(x) && !s0.at(x) && !to_visit@.contains(x)
                    ==> open_closed_at(*grid, *seen, x),
        decreases n - count_true(seen.spec_cells()), to_visit@.len(),
    {
        let ghost q0 = to_visit@;
        let cur = to_visit.pop_back().unwrap();
        let ghost q_after_pop = to_visit@;
        let ghost seen_at_pop = *seen;
        proof {
            assert(cur == q0[q0.len() - 1]);
            assert(seen.contains(cur) && seen.at(cur) && !s0.at(cur));
            assert forall|x: Coord|
                #[trigger] seen.contains(x) && seen.at(x) && !s0.at(x) && !to_visit@.contains(x)
                    && x != cur implies open_closed_at(*grid, *seen, x) by {
                if q0.contains(x) {
                    let j = choose|j: int| 0 <= j < q0.len() && q0[j] == x;
                    if j < q0.len() - 1 {
                        assert(to_visit@[j] == x);
                    }
                }
            }
        }
        let mut k: usize = 0;
        while k < 8
            invariant
                grid.wf(),
                labels.wf(),
                labels.spec_size() == grid.spec_size(),
                forall|x: Coord|
                    #![trigger labels.at(x)]
                    labels.contains(x) ==> labels.at(x) == if seen.at(x) && !s0.at(x) {
                        Some(id)
                    } else {
                        l0.at(x)
                    },
                seen.wf(),
                seen.spec_size() == grid.spec_size(),
                s0.wf(),
                s0.spec_size() == grid.spec_size(),
                n == size_count(grid.spec_size()),
                directions@ == all_directions(),
                open == open_of(*grid),
                is_open_cell(*grid, start),
                seen.at(start),
                !s0.at(start),
                0 <= k <= 8,
                seen.contains(cur),
                seen.at(cur),
                !s0.at(cur),
                open_reachable(*grid, start, cur),
                count_true(seen.spec_cells()) <= n,
                count_true(seen.spec_cells()) >= count_true(seen_at_pop.spec_cells()),
                count_true(seen.spec_cells()) == count_true(seen_at_pop.spec_cells()) ==> to_visit@ == q_after_pop,
                forall|x: Coord| #[trigger] s0.contains(x) && s0.at(x) ==> !open_reachable(*grid, start, x),
                forall|x: Coord| #[trigger] seen.contains(x) && s0.at(x) ==> seen.at(x),
                forall|x: Coord| #[trigger] seen.contains(x) && seen_at_pop.at(x) ==> seen.at(x),
                forall|x: Coord|
                    #[trigger] seen.contains(x) && seen.at(x) && !s0.at(x) ==> open_reachable(
                        *grid,
                        start,
                        x,
                    ),
                forall|j: int|
                    0 <= j < to_visit@.len() ==> {
                        let x = #[trigger] to_visit@[j];
                        seen.contains(x) && seen.at(x) && !s0.at(x)
                    },
                forall|x: Coord|
                    #[trigger] seen.contains(x) && seen.at(x) && !s0.at(x) && !to_visit@.contains(x)
                        && x != cur ==> open_closed_at(*grid, *seen, x),
                forall|j: int|
                    0 <= j < k ==> {
                        let nb = #[trigger] coord_plus(cur, direction_delta(all_directions()[j]));
                        is_open_cell(*grid, nb) ==> seen.at(nb)
                    },
            decreases 8 - k,
        {
            let nei = cur.plus(directions[k].coord());
            let mut is_new_open = false;
            if let Some(cell) = grid.get(nei) {
                if *cell == GenerationCell::Open {
                    if !*seen.get_checked(nei) {
                        is_new_open = true;
                    }
                }
            }
            if is_new_open {
                let ghost before = *seen;
                let ghost prev_q = to_visit@;
                proof {
                    lemma_index_bounds(seen.spec_size(), nei);
                    lemma_count_true_update(seen.spec_cells(), index_of(seen.spec_size(), nei));
                    lemma_neighbours(cur, nei);
                    lemma_reach_step(open, true, start, cur, nei);
                }
                let ghost before_labels = *labels;
                seen.set(nei, true);
                labels.set(nei, Some(id));
                to_visit.push_front(nei);
                proof {
                    assert forall|x: Coord| #![trigger labels.at(x)] labels.contains(x) implies labels.at(x)
                        == if seen.at(x) && !s0.at(x) {
                        Some(id)
                    } else {
                        l0.at(x)
                    } by {
                        assert(before.contains(x));
                        if x != nei {
                            assert(labels.at(x) == before_labels.at(x));
                            assert(seen.at(x) == before.at(x));
                        }
                    }
                    lemma_count_true_bound(seen.spec_cells());
                    assert(to_visit@ == seq![nei] + prev_q);
                    assert forall|j: int| 0 <= j < to_visit@.len() implies {
                        let x = #[trigger] to_visit@[j];
                        seen.contains(x) && seen.at(x) && !s0.at(x)
                    } by {
                        if j > 0 {
                            let y = prev_q[j - 1];
                            assert(to_visit@[j] == y);
                            assert(before.contains(y) && before.at(y) && !s0.at(y));
                            if y != nei {
                                assert(seen.at(y) == before.at(y));
                            }
                        } else {
                            assert(to_visit@[0] == nei);
                            assert(before.contains(nei));
                            assert(!before.at(nei));
                            assert(!s0.at(nei));
                        }
                    }
                    assert forall|x: Coord|
                        #[trigger] seen.contains(x) && seen.at(x) && !s0.at(x) && !to_visit@.contains(x)
                            && x != cur implies open_closed_at(*grid, *seen, x) by {
                        assert(to_visit@[0] == nei);
                        assert(before.contains(x));
                        if prev_q.contains(x) {
                            let j = choose|j: int| 0 <= j < prev_q.len() && prev_q[j] == x;
                            assert(to_visit@[j + 1] == x);
                        }
                        assert(open_closed_at(*grid, before, x));
                        assert forall|m: Coord|
                            is_open_cell(*grid, m) && #[trigger] is_neighbour(x, m) implies seen.at(m) by {
                            assert(before.at(m));
                            if m != nei {
                                assert(seen.at(m) == before.at(m));
                            }
                        }
                    }
                    assert forall|x: Coord| #[trigger] seen.contains(x) && seen_at_pop.at(x) implies seen.at(x) by {
                        assert(before.contains(x));
                    }
                    assert forall|x: Coord| #[trigger] seen.contains(x) && s0.at(x) implies seen.at(x) by {
                        assert(before.contains(x));
                    }
                    assert forall|x: Coord|
                        #[trigger] seen.contains(x) && seen.at(x) && !s0.at(x) implies open_reachable(*grid, start, x) by {
                        assert(before.contains(x));
                    }
                }
            }
            k = k + 1;
        }
        proof {
            assert forall|m: Coord| is_open_cell(*grid, m) && #[trigger] is_neighbour(cur, m) implies seen.at(m) by {
                lemma_neighbours(cur, m);
                let j = choose|j: int|
                    0 <= j < 8 && m == #[trigger] coord_plus(cur, direction_delta(all_directions()[j]));
                assert(m == coord_plus(cur, direction_delta(all_directions()[j])));
            }
            assert(open_closed_at(*grid, *seen, cur));
        }
    }
    proof {
        let sf = *seen;
        let set = |x: Coord| sf.contains(x) && sf.at(x) && !s0.at(x);
        assert forall|x: Coord, m: Coord| set(x) && open(m) && #[trigger] adjacent(true, x, m) implies set(m) by {
            assert(!to_visit@.contains(x));
            assert(open_closed_at(*grid, sf, x));
            assert(is_open_cell(*grid, m));
            assert(sf.at(m));
            assert(open_reachable(*grid, start, x));
            lemma_reach_step(open, true, start, x, m);
            assert(open_reachable(*grid, start, m));
            assert(sf.contains(m));
            assert(s0.contains(m));
            assert(!s0.at(m));
        }
        assert forall|x: Coord| #[trigger] sf.contains(x) implies (sf.at(x) == (s0.at(x)
            || open_reachable(*grid, start, x))) by {
            if open_reachable(*grid, start, x) {
                lemma_closed_set_contains_reachable(open, true, set, start, x);
            }
        }
        assert forall|x: Coord| #![trigger labels.at(x)] labels.contains(x) implies labels.at(x) == if !s0.at(x)
            && open_reachable(*grid, start, x) {
            Some(id)
        } else {
            l0.at(x)
        } by {
            assert(sf.contains(x));
            if open_reachable(*grid, start, x) {
                lemma_closed_set_contains_reachable(open, true, set, start, x);
            }
        }
    }
}

/// The first cell of the area of an open cell is an area start from which the cell is reached.
proof fn lemma_area_start_of(g: Grid<GenerationCell>, x: Coord)
    requires
        g.wf(),
        is_open_cell(g, x),
    ensures
        0 <= area_start_of(g, x) < size_count(g.spec_size()),
        is_area_start(g, area_start_of(g, x)),
        open_reachable(g, coord_at_index(g.spec_size().width as int, area_start_of(g, x)), x),
{
    let w = g.spec_size().width as int;
    lemma_index_bounds(g.spec_size(), x);
    let i = index_of(g.spec_size(), x);
    assert(coord_at_index(w, i) == x);
    lemma_reach_refl(open_of(g), true, x);
    assert(open_reachable(g, coord_at_index(w, i), x));
    lemma_area_start_exists(g, size_count(g.spec_size()), x);
    let j = choose|j: int|
        0 <= j < size_count(g.spec_size()) && is_area_start(g, j) && #[trigger] open_reachable(
            g,
            coord_at_index(w, j),
            x,
        );
    lemma_area_of_start(g, j, x);
}

/// Two open cells are in the same area exactly when a path of open cells, each sharing a
/// side or a corner with the next, joins them; and every area number is below the number of
/// areas.
pub proof fn law_areas_are_open_regions(g: Grid<GenerationCell>, x: Coord, y: Coord)
    requires
        g.wf(),
        is_open_cell(g, x),
        is_open_cell(g, y),
    ensures
        area_of(g, x) == area_of(g, y) <==> open_reachable(g, x, y),
        area_of(g, x) < num_areas(g),
{
    let w = g.spec_size().width as int;
    let open = open_of(g);
    lemma_area_start_of(g, x);
    lemma_area_start_of(g, y);
    let jx = area_start_of(g, x);
    let jy = area_start_of(g, y);
    let cx = coord_at_index(w, jx);
    let cy = coord_at_index(w, jy);
    if open_reachable(g, x, y) {
        lemma_reach_trans(open, true, cx, x, y);
        lemma_area_start_unique(g, jx, jy, y);
    }
    if area_of(g, x) == area_of(g, y) {
        if jx < jy {
            lemma_areas_before_monotonic(g, jx, jy);
        } else if jy < jx {
            lemma_areas_before_monotonic(g, jy, jx);
        }
        assert(jx == jy);
        lemma_reach_sym(open, true, cx, x);
        lemma_reach_trans(open, true, x, cx, y);
    }
    lemma_areas_before_monotonic(g, jx, size_count(g.spec_size()));
}

/// The area of each open cell of the grid, and `None` on every other cell, with the number of
/// areas. Areas are the
/// regions of open cells connected through shared sides or corners, numbered from 0 in the
/// row-major order of their first cells.
pub fn label_open_areas(grid: &Grid<GenerationCell>) -> (r: (Grid<Option<usize>>, usize))
    requires
        grid.wf(),
    ensures
        r.0.wf(),
        r.0.spec_size() == grid.spec_size(),
        forall|x: Coord|
            #![trigger r.0.at(x)]
            r.0.contains(x) ==> r.0.at(x) == if is_open_cell(*grid, x) {
                Some(area_of(*grid, x) as usize)
            } else {
                None
            },
        r.1 == num_areas(*grid),
{
    let n = grid.count();
    let mut labels_grid: Grid<Option<usize>> = Grid::new_copy(grid.size(), None);
    let mut seen = Grid::new_copy(grid.size(), false);
    let mut next_id: usize = 0;
    let mut i: usize = 0;
    let ghost w = grid.spec_size().width as int;
    let ghost open = open_of(*grid);
    while i < n
        invariant
            grid.wf(),
            seen.wf(),
            seen.spec_size() == grid.spec_size(),
            labels_grid.wf(),
            labels_grid.spec_size() == grid.spec_size(),
            w == grid.spec_size().width as int,
            open == open_of(*grid),
            n == size_count(grid.spec_size()),
            i <= n,
            next_id == areas_before(*grid, i as int),
            next_id <= i,
            forall|x: Coord| #[trigger] seen.contains(x) ==> (seen.at(x) == area_reached_before(*grid, i as int, x)),
            forall|x: Coord|
                #![trigger labels_grid.at(x)]
                labels_grid.contains(x) ==> labels_grid.at(x) == if area_reached_before(*grid, i as int, x) {
                    Some(area_of(*grid, x) as usize)
                } else {
                    None
                },
        decreases n - i,
    {
        let coord = grid.coord_of_index(i);
        let ghost s_before = seen;
        let ghost l_before = labels_grid;
        let is_open = *grid.get_checked(coord) == GenerationCell::Open;
        if is_open && !*seen.get_checked(coord) {
            proof {
                assert(seen.contains(coord));
                assert(!area_reached_before(*grid, i as int, coord));
                assert forall|x: Coord| #[trigger] seen.contains(x) && seen.at(x) implies !open_reachable(*grid, coord, x) by {
                    assert(area_reached_before(*grid, i as int, x));
                    let j = choose|j: int| 0 <= j < i && #[trigger] open_reachable(*grid, coord_at_index(w, j), x);
                    if open_reachable(*grid, coord, x) {
                        lemma_reach_sym(open, true, coord, x);
                        lemma_reach_trans(open, true, coord_at_index(w, j), x, coord);
                        assert(open_reachable(*grid, coord_at_index(w, j), coord));
                        assert(area_reached_before(*grid, i as int, coord));
                    }
                }
                assert(is_area_start(*grid, i as int));
            }
            label_area(grid, &mut seen, &mut labels_grid, coord, next_id);
            proof {
                assert forall|x: Coord| #[trigger] seen.contains(x) implies (seen.at(x) == area_reached_before(*grid, i + 1, x)) by {
                    assert(s_before.contains(x));
                    if area_reached_before(*grid, i + 1, x) {
                        let j = choose|j: int| 0 <= j < i + 1 && #[trigger] open_reachable(*grid, coord_at_index(w, j), x);
                        if j < i {
                            assert(area_reached_before(*grid, i as int, x));
                        }
                    }
                    if s_before.at(x) {
                        let j = choose|j: int| 0 <= j < i && #[trigger] open_reachable(*grid, coord_at_index(w, j), x);
                        assert(open_reachable(*grid, coord_at_index(w, j), x));
                    }
                    if open_reachable(*grid, coord, x) {
                        assert(open_reachable(*grid, coord_at_index(w, i as int), x));
                    }
                }
                assert forall|x: Coord|
                    #![trigger labels_grid.at(x)]
                    labels_grid.contains(x) implies labels_grid.at(x) == if area_reached_before(*grid, i + 1, x) {
                        Some(area_of(*grid, x) as usize)
                    } else {
                        None
                    } by {
                    assert(s_before.contains(x));
                    assert(seen.contains(x));
                    assert(seen.at(x) == area_reached_before(*grid, i + 1, x));
                    if !s_before.at(x) && open_reachable(*grid, coord, x) {
                        lemma_area_of_start(*grid, i as int, x);
                    }
                }
            }
            next_id = next_id + 1;
        } else {
            proof {
                assert(seen.contains(coord));
                assert(coord == coord_at_index(w, i as int));
                assert(!is_area_start(*grid, i as int));
                assert forall|x: Coord| area_reached_before(*grid, i + 1, x) implies #[trigger] area_reached_before(
                    *grid,
                    i as int,
                    x,
                ) by {
                    let j = choose|j: int| 0 <= j < i + 1 && #[trigger] open_reachable(*grid, coord_at_index(w, j), x);
                    if j == i {
                        lemma_reach_ends_open(open, true, coord, x);
                        assert(is_open_cell(*grid, coord));
                        assert(area_reached_before(*grid, i as int, coord));
                        let j2 = choose|j2: int| 0 <= j2 < i && #[trigger] open_reachable(*grid, coord_at_index(w, j2), coord);
                        lemma_reach_trans(open, true, coord_at_index(w, j2), coord, x);
                        assert(open_reachable(*grid, coord_at_index(w, j2), x));
                    }
                }
                assert forall|x: Coord| area_reached_before(*grid, i as int, x) implies #[trigger] area_reached_before(
                    *grid,
                    i + 1,
                    x,
                ) by {
                    let j = choose|j: int| 0 <= j < i && #[trigger] open_reachable(*grid, coord_at_index(w, j), x);
                    assert(open_reachable(*grid, coord_at_index(w, j), x));
                }
            }
        }
        i = i + 1;
    }
    proof {
        assert forall|x: Coord| labels_grid.contains(x) implies (area_reached_before(*grid, n as int, x)
            <==> #[trigger] is_open_cell(*grid, x)) by {
            if area_reached_before(*grid, n as int, x) {
                let j = choose|j: int| 0 <= j < n && #[trigger] open_reachable(*grid, coord_at_index(w, j), x);
                lemma_reach_ends_open(open, true, coord_at_index(w, j), x);
            }
            if is_open_cell(*grid, x) {
                lemma_index_bounds(grid.spec_size(), x);
                let j = index_of(grid.spec_size(), x);
                assert(coord_at_index(w, j) == x);
                lemma_reach_refl(open, true, x);
                assert(open_reachable(*grid, coord_at_index(w, j), x));
            }
        }
    }
    (labels_grid, next_id)
}



/// The cells of the area `k`, as a set.
pub open spec fn in_area(g: Grid<GenerationCell>, k: int) -> spec_fn(Coord) -> bool {
    |c: Coord| is_open_cell(g, c) && area_of(g, c) == k
}

/// The number of cells of the area `k`.
pub open spec fn area_size(g: Grid<GenerationCell>, k: int) -> nat {
    row_major(g.spec_size()).filter(in_area(g, k)).len()
}

/// `k` is a largest area, and the last in numbering order of the largest ones.
pub open spec fn is_largest_area(g: Grid<GenerationCell>, k: int) -> bool {
    &&& 0 <= k < num_areas(g)
    &&& forall|j: int| 0 <= j < num_areas(g) ==> #[trigger] area_size(g, j) <= area_size(g, k)
    &&& forall|j: int| k < j < num_areas(g) ==> #[trigger] area_size(g, j) < area_size(g, k)
}

/// The grid with only its largest area of open cells left open (the last one, in the
/// row-major order of their first cells, when several are largest) and every other cell
/// closed. Areas are regions of open cells connected through shared sides or corners. The
/// grid must have an open cell.
pub fn keep_largest_enclosed_area(grid: &Grid<GenerationCell>) -> (r: Grid<GenerationCell>)
    requires
        grid.wf(),
        exists|c: Coord| #[trigger] is_open_cell(*grid, c),
    ensures
        r.wf(),
        r.spec_size() == grid.spec_size(),
        exists|k: int|
            #[trigger] is_largest_area(*grid, k) && forall|c: Coord|
                #[trigger] r.contains(c) ==> r.at(c) == if is_open_cell(*grid, c) && area_of(*grid, c) == k {
                    GenerationCell::Open
                } else {
                    GenerationCell::Closed
                },
{
    let (labels, num) = label_open_areas(grid);
    let n = grid.count();
    let ghost cells = row_major(grid.spec_size());
    let mut counts: Vec<usize> = Vec::new();
    let mut k: usize = 0;
    while k < num
        invariant
            k <= num,
            counts@.len() == k,
            forall|j: int| 0 <= j < k ==> counts@[j] == 0,
        decreases num - k,
    {
        counts.push(0);
        k = k + 1;
    }
    proof {
        assert(cells.take(0) =~= Seq::<Coord>::empty());
        assert forall|j: int| 0 <= j < num implies counts@[j] == #[trigger] cells.take(0).filter(in_area(*grid, j)).len() by {
            assert(cells.take(0).filter(in_area(*grid, j)) =~= Seq::<Coord>::empty());
        }
    }
    let mut i: usize = 0;
    while i < n
        invariant
            grid.wf(),
            labels.wf(),
            labels.spec_size() == grid.spec_size(),
            forall|x: Coord|
                #![trigger labels.at(x)]
                labels.contains(x) ==> labels.at(x) == if is_open_cell(*grid, x) {
                    Some(area_of(*grid, x) as usize)
                } else {
                    None
                },
            num == num_areas(*grid),
            n == size_count(grid.spec_size()),
            cells == row_major(grid.spec_size()),
            i <= n,
            counts@.len() == num,
            forall|j: int| 0 <= j < num ==> counts@[j] == #[trigger] cells.take(i as int).filter(in_area(*grid, j)).len(),
        decreases n - i,
    {
        let c = grid.coord_of_index(i);
        proof {
            assert(cells.take(i + 1) =~= cells.take(i as int).push(c));
            assert forall|j: int| 0 <= j < num implies #[trigger] cells.take(i + 1).filter(in_area(*grid, j))
                == if in_area(*grid, j)(c) {
                cells.take(i as int).filter(in_area(*grid, j)).push(c)
            } else {
                cells.take(i as int).filter(in_area(*grid, j))
            } by {
                cells.take(i as int).lemma_filter_push(c, in_area(*grid, j));
            }
            assert forall|j: int| 0 <= j < num implies #[trigger] cells.take(i as int).filter(in_area(*grid, j)).len() <= i by {
                cells.take(i as int).lemma_filter_len(in_area(*grid, j));
            }
        }
        let ghost c0 = counts@;
        match *labels.get_checked(c) {
            Some(id) => {
                proof {
                    assert(is_open_cell(*grid, c));
                    law_areas_are_open_regions(*grid, c, c);
                    assert(id == area_of(*grid, c));
                    assert(counts@[id as int] == cells.take(i as int).filter(in_area(*grid, id as int)).len());
                }
                let v = counts[id];
                counts.set(id, v + 1);
                proof {
                    assert forall|j: int| 0 <= j < num implies counts@[j] == #[trigger] cells.take(i + 1).filter(
                        in_area(*grid, j),
                    ).len() by {
                        if j != id {
                            assert(!in_area(*grid, j)(c));
                        }
                    }
                }
            },
            None => {
                proof {
                    assert(!is_open_cell(*grid, c));
                    assert forall|j: int| 0 <= j < num implies counts@[j] == #[trigger] cells.take(i + 1).filter(
                        in_area(*grid, j),
                    ).len() by {
                        assert(!in_area(*grid, j)(c));
                    }
                }
            },
        }
        i = i + 1;
    }
    proof {
        assert(cells.take(n as int) =~= cells);
        let c = choose|c: Coord| #[trigger] is_open_cell(*grid, c);
        law_areas_are_open_regions(*grid, c, c);
        assert forall|j: int| 0 <= j < num implies counts@[j] == #[trigger] area_size(*grid, j) by {
            assert(counts@[j] == cells.take(n as int).filter(in_area(*grid, j)).len());
        }
    }
    let mut best: usize = 0;
    let mut id: usize = 1;
    while id < num
        invariant
            1 <= id <= num,
            counts@.len() == num,
            best < id,
            forall|j: int| 0 <= j < id ==> counts@[j] <= counts@[best as int],
            forall|j: int| best < j < id ==> counts@[j] < counts@[best as int],
        decreases num - id,
    {
        if counts[id] >= counts[best] {
            best = id;
        }
        id = id + 1;
    }
    let mut r = Grid::new_copy(grid.size(), GenerationCell::Closed);
    let mut i: usize = 0;
    while i < n
        invariant
            grid.wf(),
            labels.wf(),
            labels.spec_size() == grid.spec_size(),
            r.wf(),
            r.spec_size() == grid.spec_size(),
            forall|x: Coord|
                #![trigger labels.at(x)]
                labels.contains(x) ==> labels.at(x) == if is_open_cell(*grid, x) {
                    Some(area_of(*grid, x) as usize)
                } else {
                    None
                },
            best < num,
            num == num_areas(*grid),
            n == size_count(grid.spec_size()),
            i <= n,
            forall|x: Coord|
                #[trigger] r.contains(x) ==> r.at(x) == if index_of(grid.spec_size(), x) < i && is_open_cell(*grid, x)
                    && area_of(*grid, x) == best {
                    GenerationCell::Open
                } else {
                    GenerationCell::Closed
                },
        decreases n - i,
    {
        let c = grid.coord_of_index(i);
        let ghost before = r;
        if *labels.get_checked(c) == Some(best) {
            r.set(c, GenerationCell::Open);
        }
        proof {
            if is_open_cell(*grid, c) {
                law_areas_are_open_regions(*grid, c, c);
            }
            assert forall|x: Coord| #[trigger] r.contains(x) implies r.at(x) == if index_of(grid.spec_size(), x)
                < i + 1 && is_open_cell(*grid, x) && area_of(*grid, x) == best {
                GenerationCell::Open
            } else {
                GenerationCell::Closed
            } by {
                assert(before.contains(x));
                lemma_index_bounds(grid.spec_size(), x);
                if index_of(grid.spec_size(), x) == i {
                    crate::grid::lemma_index_injective(grid.spec_size(), x, c);
                }
                if x == c {
                    assert(index_of(grid.spec_size(), x) == i);
                }
            }
        }
        i = i + 1;
    }
    proof {
        assert(is_largest_area(*grid, best as int));
        assert forall|c: Coord| #[trigger] r.contains(c) implies r.at(c) == if is_open_cell(*grid, c) && area_of(
            *grid,
            c,
        ) == best {
            GenerationCell::Open
        } else {
            GenerationCell::Closed
        } by {
            lemma_index_bounds(grid.spec_size(), c);
        }
    }
    r
}


/// The cell `c` of the grid that keeps only the area `k` of `g` open.
pub open spec fn kept_cell(g: Grid<GenerationCell>, k: int, c: Coord) -> GenerationCell {
    if is_open_cell(g, c) && area_of(g, c) == k {
        GenerationCell::Open
    } else {
        GenerationCell::Closed
    }
}

/// The hull grown from a grid of open and closed cells (what a wave function collapse over a
/// template gives): only its largest area of open cells stays open, the grid is wrapped in
/// closed cells, and the closed cells become walls next to an open cell and space elsewhere.
/// The grid must have an open cell, and the wrapped grid must fit in memory.
pub fn hull_from_wave(wave: &Grid<GenerationCell>) -> (h: Grid<HullCell>)
    requires
        wave.wf(),
        exists|c: Coord| #[trigger] is_open_cell(*wave, c),
        wave.spec_size().width + 2 <= i32::MAX,
        wave.spec_size().height + 2 <= i32::MAX,
        (wave.spec_size().width + 2) * (wave.spec_size().height + 2) <= usize::MAX,
    ensures
        h.wf(),
        h.spec_size() == (Size { width: (wave.spec_size().width + 2) as u32, height: (wave.spec_size().height + 2) as u32 }),
        exists|k: int, wrapped: Grid<GenerationCell>|
            #![trigger is_largest_area(*wave, k), wrapped.spec_size()]
            {
                &&& is_largest_area(*wave, k)
                &&& wrapped.spec_size() == h.spec_size()
                &&& forall|c: Coord|
                    #[trigger] wrapped.contains(c) ==> wrapped.at(c) == {
                        let p = Coord { x: (c.x - 1) as i32, y: (c.y - 1) as i32 };
                        if wave.contains(p) {
                            kept_cell(*wave, k, p)
                        } else {
                            GenerationCell::Closed
                        }
                    }
                &&& forall|c: Coord| #[trigger] h.contains(c) ==> h.at(c) == stripped_cell(wrapped, c)
            },
{
    let kept = keep_largest_enclosed_area(wave);
    let wrapped = wrap_in_closed_area(&kept);
    let stripped = strip_walls_from_outside(&wrapped);
    let h = surround_by_space(&stripped);
    proof {
        let k = choose|k: int|
            #[trigger] is_largest_area(*wave, k) && forall|c: Coord|
                #[trigger] kept.contains(c) ==> kept.at(c) == if is_open_cell(*wave, c) && area_of(*wave, c) == k {
                    GenerationCell::Open
                } else {
                    GenerationCell::Closed
                };
        assert forall|c: Coord| #[trigger] wrapped.contains(c) implies wrapped.at(c) == {
            let p = Coord { x: (c.x - 1) as i32, y: (c.y - 1) as i32 };
            if wave.contains(p) {
                kept_cell(*wave, k, p)
            } else {
                GenerationCell::Closed
            }
        } by {
            let p = Coord { x: (c.x - 1) as i32, y: (c.y - 1) as i32 };
            if kept.contains(p) {
                assert(kept.at(p) == kept_cell(*wave, k, p));
            }
        }
        assert forall|c: Coord| #[trigger] h.contains(c) implies h.at(c) == stripped_cell(wrapped, c) by {
            assert(stripped.contains(c));
        }
        assert(is_largest_area(*wave, k));
        assert(wrapped.spec_size() == h.spec_size());
        let wrapped_spec = wrapped;
        assert(exists|k2: int, w2: Grid<GenerationCell>|
            #![trigger is_largest_area(*wave, k2), w2.spec_size()]
            {
                &&& is_largest_area(*wave, k2)
                &&& w2.spec_size() == h.spec_size()
                &&& forall|c: Coord|
                    #[trigger] w2.contains(c) ==> w2.at(c) == {
                        let p = Coord { x: (c.x - 1) as i32, y: (c.y - 1) as i32 };
                        if wave.contains(p) {
                            kept_cell(*wave, k2, p)
                        } else {
                            GenerationCell::Closed
                        }
                    }
                &&& forall|c: Coord| #[trigger] h.contains(c) ==> h.at(c) == stripped_cell(w2, c)
            }) by {
            assert(is_largest_area(*wave, k) && wrapped_spec.spec_size() == h.spec_size());
        }
    }
    h
}

/// The number of floor cells of the hull.
pub open spec fn floor_count(hull: Grid<HullCell>) -> nat {
    row_major(hull.spec_size()).filter(|c: Coord| hull.at(c) == HullCell::Floor).len()
}

/// Whether a grown hull is kept: at least half of its cells are floor, and its extent falls
/// short of its grid by at most 8 cells, counting both directions. The hull must have a cell
/// other than space.
pub fn accept_hull(hull: &Grid<HullCell>) -> (b: bool)
    requires
        hull.wf(),
        exists|c: Coord| #[trigger] hull.contains(c) && hull.at(c) != HullCell::Space,
    ensures
        b == (floor_count(*hull) >= size_count(hull.spec_size()) / 2 && exists|mn: Coord, mx: Coord|
            #[trigger] is_bounding_box(*hull, mn, mx) && (hull.spec_size().width - (mx.x - mn.x)) + (
            hull.spec_size().height - (mx.y - mn.y)) <= 8),
{
    let size = hull.size();
    let n = hull.count();
    let ghost cells = row_major(size);
    let ghost is_fl = |c: Coord| hull.at(c) == HullCell::Floor;
    let mut floor: usize = 0;
    let mut i: usize = 0;
    while i < n
        invariant
            hull.wf(),
            size == hull.spec_size(),
            n == size_count(size),
            cells == row_major(size),
            is_fl == (|c: Coord| hull.at(c) == HullCell::Floor),
            i <= n,
            floor == cells.take(i as int).filter(is_fl).len(),
        decreases n - i,
    {
        let c = hull.coord_of_index(i);
        proof {
            assert(cells.take(i + 1) =~= cells.take(i as int).push(c));
            cells.take(i as int).lemma_filter_push(c, is_fl);
            cells.take(i as int).lemma_filter_len(is_fl);
        }
        if *hull.get_checked(c) == HullCell::Floor {
            floor = floor + 1;
        }
        i = i + 1;
    }
    proof {
        assert(cells.take(n as int) =~= cells);
    }
    if floor < n / 2 {
        return false;
    }
    let bounding_box = hull_bounding_box(hull);
    proof {
        let (mn, mx) = choose|mn: Coord, mx: Coord|
            #[trigger] is_bounding_box(*hull, mn, mx) && bounding_box.width == mx.x - mn.x && bounding_box.height
                == mx.y - mn.y;
        let c = choose|c: Coord| #[trigger] hull.contains(c) && hull.at(c) != HullCell::Space && c.x == mx.x;
        let d = choose|d: Coord| #[trigger] hull.contains(d) && hull.at(d) != HullCell::Space && d.y == mx.y;
        assert(mx.x < size.width && mx.y < size.height);
        assert forall|mn2: Coord, mx2: Coord| #[trigger] is_bounding_box(*hull, mn2, mx2) implies mn2 == mn && mx2 == mx by {
            let a1 = choose|c: Coord| #[trigger] hull.contains(c) && hull.at(c) != HullCell::Space && c.x == mn2.x;
            let a2 = choose|c: Coord| #[trigger] hull.contains(c) && hull.at(c) != HullCell::Space && c.x == mx2.x;
            let a3 = choose|c: Coord| #[trigger] hull.contains(c) && hull.at(c) != HullCell::Space && c.y == mn2.y;
            let a4 = choose|c: Coord| #[trigger] hull.contains(c) && hull.at(c) != HullCell::Space && c.y == mx2.y;
            let b1 = choose|c: Coord| #[trigger] hull.contains(c) && hull.at(c) != HullCell::Space && c.x == mn.x;
            let b3 = choose|c: Coord| #[trigger] hull.contains(c) && hull.at(c) != HullCell::Space && c.y == mn.y;
            assert(mn.x <= a1.x && mn2.x <= b1.x);
            assert(a2.x <= mx.x && c.x <= mx2.x);
            assert(mn.y <= a3.y && mn2.y <= b3.y);
            assert(a4.y <= mx.y && d.y <= mx2.y);
        }
    }
    let delta_x = size.width - bounding_box.width;
    let delta_y = size.height - bounding_box.height;
    if delta_x + delta_y > 8 {
        return false;
    }
    true
}

} // verus!
