//! Windows in the walls of a hull whose doors are placed: runs of wall cells with floor or
//! space on both sides become candidates, inner ones (floor on both sides) or outer ones
//! (space on a side), and a random share of each gets windows.
use crate::doors::{scan_order, size_along, step_across, step_along, DoorCell};
use crate::geometry::{axis_get, other_axis, size_contains, Axis, Coord, Size};
use crate::grid::Grid;
use crate::random::{gen_range_i32, shuffle};
use rand_isaac::Isaac64Rng;
use vstd::prelude::*;

verus! {

/// A cell of a hull once its windows are placed.
#[derive(Clone, Copy, Debug, PartialEq, Eq, Structural)]
pub enum WindowCell {
    Wall,
    Floor,
    Space,
    Door(Axis),
    Window(Axis),
    Stairs,
    Spawn,
}

/// A run of wall cells that could hold windows: it goes along the other axis than `axis` from
/// `top_left` for `length` cells, and is outer (`external`) when space lies beside its cells.
#[derive(Clone, Copy, Debug, PartialEq, Eq, Structural)]
pub struct WindowCandidate {
    pub axis: Axis,
    pub top_left: Coord,
    pub length: u32,
    pub external: bool,
}

/// What lies beside a cell: the cell of the grid at `c`, or space outside the grid.
pub open spec fn side_at(g: Grid<DoorCell>, c: Coord) -> DoorCell {
    if g.contains(c) {
        g.at(c)
    } else {
        DoorCell::Space
    }
}

/// A window may look onto this cell: floor or space.
pub open spec fn open_side(d: DoorCell) -> bool {
    d == DoorCell::Floor || d == DoorCell::Space
}

/// `c` is a wall with floor or space on both sides along `axis`.
pub open spec fn window_site(g: Grid<DoorCell>, axis: Axis, c: Coord) -> bool {
    &&& g.contains(c)
    &&& g.at(c) == DoorCell::Wall
    &&& open_side(side_at(g, step_along(axis, c, -1)))
    &&& open_side(side_at(g, step_along(axis, c, 1)))
}

/// The window sites along `axis`, as a set.
pub open spec fn window_site_of(g: Grid<DoorCell>, axis: Axis) -> spec_fn(Coord) -> bool {
    |c: Coord| window_site(g, axis, c)
}

/// Space lies on one side of `c` along `axis`.
pub open spec fn faces_space(g: Grid<DoorCell>, axis: Axis, c: Coord) -> bool {
    side_at(g, step_along(axis, c, -1)) == DoorCell::Space || side_at(g, step_along(axis, c, 1))
        == DoorCell::Space
}

/// The cells of the run of `c`, in order.
pub open spec fn window_run_cells(c: WindowCandidate) -> Seq<Coord> {
    Seq::new(c.length as nat, |t: int| step_across(c.axis, c.top_left, t))
}

/// The cells of the runs of `cs`, one run after the other.
pub open spec fn all_window_cells(cs: Seq<WindowCandidate>) -> Seq<Coord>
    decreases cs.len(),
{
    if cs.len() == 0 {
        Seq::empty()
    } else {
        all_window_cells(cs.drop_last()) + window_run_cells(cs.last())
    }
}

/// `c` runs along the other axis than `axis`, has at least one cell, and is outer exactly
/// when each of its cells faces space.
pub open spec fn window_candidate_fits(g: Grid<DoorCell>, axis: Axis, c: WindowCandidate) -> bool {
    &&& c.axis == axis
    &&& c.length >= 1
    &&& forall|t: int|
        0 <= t < c.length ==> faces_space(g, axis, #[trigger] step_across(axis, c.top_left, t)) == c.external
}

/// A site at `coord`, outer or not as `external` says, would continue the run of `c`.
pub open spec fn window_continues(c: WindowCandidate, coord: Coord, external: bool) -> bool {
    c.external == external && step_across(c.axis, c.top_left, c.length as int) == coord
}

/// The candidate starts on a cell of a grid of size `s` and its run ends inside the grid.
pub open spec fn window_candidate_in(s: Size, c: WindowCandidate) -> bool {
    &&& size_contains(s, c.top_left)
    &&& axis_get(c.top_left, other_axis(c.axis)) + c.length <= size_along(s, other_axis(c.axis))
}

/// Every cell of the run of `c` is a window site along its axis, and the run lies in a grid of
/// size `s`.
pub open spec fn window_runs_are_sites(g: Grid<DoorCell>, c: WindowCandidate) -> bool {
    &&& c.length >= 1
    &&& window_candidate_in(g.spec_size(), c)
    &&& forall|t: int| 0 <= t < c.length ==> window_site(g, c.axis, #[trigger] step_across(c.axis, c.top_left, t))
}

impl WindowCandidate {
    /// The cell just after the run.
    pub fn next_coord(&self) -> (c: Coord)
        requires
            0 <= self.top_left.x,
            0 <= self.top_left.y,
            axis_get(self.top_left, other_axis(self.axis)) + self.length <= i32::MAX,
        ensures
            c == step_across(self.axis, self.top_left, self.length as int),
    {
        self.top_left.plus(Coord::new_axis(0, self.length as i32, self.axis))
    }

    /// A random cell of the run.
    pub fn single_window_coord(&self, rng: &mut Isaac64Rng) -> (c: Coord)
        requires
            self.length >= 1,
            0 <= self.top_left.x,
            0 <= self.top_left.y,
            axis_get(self.top_left, other_axis(self.axis)) + self.length <= i32::MAX,
        ensures
            exists|t: int| 0 <= t < self.length && c == step_across(self.axis, self.top_left, t),
    {
        let offset = gen_range_i32(rng, 0, self.length as i32);
        let c = self.top_left.plus(Coord::new_axis(0, offset, self.axis));
        assert(c == step_across(self.axis, self.top_left, offset as int));
        c
    }
}

proof fn lemma_all_window_cells_push(cs: Seq<WindowCandidate>, c: WindowCandidate)
    ensures
        all_window_cells(cs.push(c)) == all_window_cells(cs) + window_run_cells(c),
{
    assert(cs.push(c).drop_last() =~= cs);
}

proof fn lemma_all_window_cells_extend(cs: Seq<WindowCandidate>, c: WindowCandidate)
    requires
        cs.len() > 0,
        c.axis == cs.last().axis,
        c.top_left == cs.last().top_left,
        c.length == cs.last().length + 1,
    ensures
        all_window_cells(cs.update(cs.len() - 1, c)) == all_window_cells(cs).push(
            step_across(c.axis, c.top_left, cs.last().length as int),
        ),
{
    let cs2 = cs.update(cs.len() - 1, c);
    assert(cs2.drop_last() =~= cs.drop_last());
    assert(window_run_cells(c) =~= window_run_cells(cs.last()).push(
        step_across(c.axis, c.top_left, cs.last().length as int),
    ));
}

proof fn lemma_window_cells_in_all(cs: Seq<WindowCandidate>, k: int, t: int)
    requires
        0 <= k < cs.len(),
        0 <= t < cs[k].length,
    ensures
        all_window_cells(cs).contains(step_across(cs[k].axis, cs[k].top_left, t)),
    decreases cs.len(),
{
    let x = step_across(cs[k].axis, cs[k].top_left, t);
    let a = all_window_cells(cs.drop_last());
    if k < cs.len() - 1 {
        lemma_window_cells_in_all(cs.drop_last(), k, t);
        let i = choose|i: int| 0 <= i < a.len() && a[i] == x;
        assert(all_window_cells(cs)[i] == x);
    } else {
        assert(window_run_cells(cs.last())[t] == x);
        assert(all_window_cells(cs)[a.len() + t] == x);
    }
}

/// The cell of a side, read as `side_at` reads it.
fn side(g: &Grid<DoorCell>, c: Coord) -> (d: DoorCell)
    requires
        g.wf(),
    ensures
        d == side_at(*g, c),
{
    match g.get(c) {
        Some(cell) => *cell,
        None => DoorCell::Space,
    }
}

/// The runs of window sites along `axis`, in the order of a scan along `axis`: each run
/// gathers consecutive sites of one column (along the other axis) that are all outer or all
/// inner.
pub fn identify_window_candidates_in_axis(grid: &Grid<DoorCell>, axis: Axis) -> (r: Vec<WindowCandidate>)
    requires
        grid.wf(),
    ensures
        all_window_cells(r@) == scan_order(grid.spec_size(), axis).filter(window_site_of(*grid, axis)),
        forall|k: int| 0 <= k < r@.len() ==> window_candidate_fits(*grid, axis, #[trigger] r@[k]),
        forall|k: int| 0 <= k < r@.len() ==> window_candidate_in(grid.spec_size(), #[trigger] r@[k]),
        forall|k: int| 0 < k < r@.len() ==> !window_continues(r@[k - 1], (#[trigger] r@[k]).top_left, r@[k].external),
{
    let size = grid.size();
    let a = size.get(axis);
    let b = size.get(axis.other());
    let ghost scan = scan_order(grid.spec_size(), axis);
    let ghost site = window_site_of(*grid, axis);
    let ghost bi = b as int;
    let mut r: Vec<WindowCandidate> = Vec::new();
    let mut i: u32 = 0;
    assert(scan.take(0) =~= Seq::<Coord>::empty());
    while i < a
        invariant
            grid.wf(),
            size == grid.spec_size(),
            a == size_along(size, axis),
            b == size_along(size, other_axis(axis)),
            bi == b,
            scan == scan_order(grid.spec_size(), axis),
            site == window_site_of(*grid, axis),
            i <= a,
            all_window_cells(r@) == scan.take(i * bi).filter(site),
            forall|k: int| 0 <= k < r@.len() ==> window_candidate_fits(*grid, axis, #[trigger] r@[k]),
            forall|k: int| 0 <= k < r@.len() ==> window_candidate_in(size, #[trigger] r@[k]),
            forall|k: int| 0 < k < r@.len() ==> !window_continues(r@[k - 1], (#[trigger] r@[k]).top_left, r@[k].external),
        decreases a - i,
    {
        let mut j: u32 = 0;
        while j < b
            invariant
                grid.wf(),
                size == grid.spec_size(),
                a == size_along(size, axis),
                b == size_along(size, other_axis(axis)),
                bi == b,
                scan == scan_order(grid.spec_size(), axis),
                site == window_site_of(*grid, axis),
                i < a,
                j <= b,
                all_window_cells(r@) == scan.take(i * bi + j).filter(site),
                forall|k: int| 0 <= k < r@.len() ==> window_candidate_fits(*grid, axis, #[trigger] r@[k]),
                forall|k: int| 0 <= k < r@.len() ==> window_candidate_in(size, #[trigger] r@[k]),
                forall|k: int|
                    0 < k < r@.len() ==> !window_continues(r@[k - 1], (#[trigger] r@[k]).top_left, r@[k].external),
            decreases b - j,
        {
            let coord = Coord::new_axis(i as i32, j as i32, axis);
            let ghost kk = i * bi + j;
            proof {
                assert(i * bi + j < a * bi) by (nonlinear_arith)
                    requires
                        i < a,
                        j < bi,
                ;
                vstd::arithmetic::div_mod::lemma_fundamental_div_mod_converse(kk, bi, i as int, j as int);
                assert(scan[kk] == coord);
                assert(scan.take(kk + 1) =~= scan.take(kk).push(coord));
                scan.take(kk).lemma_filter_push(coord, site);
            }
            let ghost r0 = r@;
            let mut is_site = false;
            if *grid.get_checked(coord) == DoorCell::Wall {
                let lc = side(grid, coord.plus(Coord::new_axis(-1, 0, axis)));
                let rc = side(grid, coord.plus(Coord::new_axis(1, 0, axis)));
                if (lc == DoorCell::Floor || lc == DoorCell::Space) && (rc == DoorCell::Floor || rc
                    == DoorCell::Space) {
                    is_site = true;
                    let external = lc == DoorCell::Space || rc == DoorCell::Space;
                    let mut updated_current = false;
                    if r.len() > 0 {
                        let idx = r.len() - 1;
                        let last = r[idx];
                        proof {
                            assert(window_candidate_in(size, r@[idx as int]));
                        }
                        if last.external == external && last.next_coord() == coord {
                            let c2 = WindowCandidate {
                                axis: last.axis,
                                top_left: last.top_left,
                                length: last.length + 1,
                                external: last.external,
                            };
                            r.set(idx, c2);
                            updated_current = true;
                            proof {
                                lemma_all_window_cells_extend(r0, c2);
                                assert(r@ == r0.update(idx as int, c2));
                                assert forall|t: int| 0 <= t < c2.length implies faces_space(
                                    *grid,
                                    axis,
                                    #[trigger] step_across(axis, c2.top_left, t),
                                ) == c2.external by {
                                    assert(window_candidate_fits(*grid, axis, r0[idx as int]));
                                    if t == last.length {
                                        assert(step_across(axis, c2.top_left, t) == coord);
                                    }
                                }
                                assert(window_candidate_fits(*grid, axis, c2));
                                assert forall|k: int| 0 <= k < r@.len() implies window_candidate_fits(
                                    *grid,
                                    axis,
                                    #[trigger] r@[k],
                                ) by {
                                    if k != idx {
                                        assert(r@[k] == r0[k]);
                                    }
                                }
                                assert forall|k: int| 0 <= k < r@.len() implies window_candidate_in(
                                    size,
                                    #[trigger] r@[k],
                                ) by {
                                    if k != idx {
                                        assert(r@[k] == r0[k]);
                                    }
                                }
                                assert forall|k: int| 0 < k < r@.len() implies !window_continues(
                                    r@[k - 1],
                                    (#[trigger] r@[k]).top_left,
                                    r@[k].external,
                                ) by {
                                    if k != idx {
                                        assert(r@[k] == r0[k]);
                                        assert(r@[k - 1] == r0[k - 1]);
                                    } else {
                                        assert(r@[k - 1] == r0[k - 1]);
                                        assert(!window_continues(r0[k - 1], r0[k].top_left, r0[k].external));
                                    }
                                }
                            }
                        }
                    }
                    if !updated_current {
                        let c2 = WindowCandidate { axis: axis, top_left: coord, length: 1, external: external };
                        r.push(c2);
                        proof {
                            lemma_all_window_cells_push(r0, c2);
                            assert(window_run_cells(c2) =~= seq![coord]);
                            assert(r@ == r0.push(c2));
                            assert forall|t: int| 0 <= t < c2.length implies faces_space(
                                *grid,
                                axis,
                                #[trigger] step_across(axis, c2.top_left, t),
                            ) == c2.external by {
                                assert(t == 0);
                                assert(step_across(axis, c2.top_left, t) == coord);
                            }
                            assert forall|k: int| 0 <= k < r@.len() implies window_candidate_fits(
                                *grid,
                                axis,
                                #[trigger] r@[k],
                            ) by {
                                if k < r0.len() {
                                    assert(r@[k] == r0[k]);
                                }
                            }
                            assert forall|k: int| 0 <= k < r@.len() implies window_candidate_in(
                                size,
                                #[trigger] r@[k],
                            ) by {
                                if k < r0.len() {
                                    assert(r@[k] == r0[k]);
                                }
                            }
                            assert forall|k: int| 0 < k < r@.len() implies !window_continues(
                                r@[k - 1],
                                (#[trigger] r@[k]).top_left,
                                r@[k].external,
                            ) by {
                                if k < r0.len() {
                                    assert(r@[k] == r0[k]);
                                    assert(r@[k - 1] == r0[k - 1]);
                                }
                            }
                        }
                    }
                }
            }
            proof {
                assert(is_site == site(coord));
            }
            j = j + 1;
        }
        proof {
            assert(i * bi + bi == (i + 1) * bi) by (nonlinear_arith);
        }
        i = i + 1;
    }
    proof {
        assert(a * bi == scan.len());
        assert(scan.take(a * bi) =~= scan);
    }
    r
}


/// The cell of the window grid that a cell of the door grid starts as.
pub open spec fn window_cell_of(d: DoorCell) -> WindowCell {
    match d {
        DoorCell::Floor => WindowCell::Floor,
        DoorCell::Wall => WindowCell::Wall,
        DoorCell::Space => WindowCell::Space,
        DoorCell::Door(axis) => WindowCell::Door(axis),
        DoorCell::Stairs => WindowCell::Stairs,
        DoorCell::Spawn => WindowCell::Spawn,
    }
}

fn window_cell(d: &DoorCell) -> (r: WindowCell)
    ensures
        r == window_cell_of(*d),
{
    match d {
        DoorCell::Floor => WindowCell::Floor,
        DoorCell::Wall => WindowCell::Wall,
        DoorCell::Space => WindowCell::Space,
        DoorCell::Door(axis) => WindowCell::Door(*axis),
        DoorCell::Stairs => WindowCell::Stairs,
        DoorCell::Spawn => WindowCell::Spawn,
    }
}

/// The cell `c` of `out` is what the door grid has there, or a window on a window site.
pub open spec fn keeps_or_window(grid: Grid<DoorCell>, out: Grid<WindowCell>, c: Coord) -> bool {
    ||| out.at(c) == window_cell_of(grid.at(c))
    ||| (out.at(c) matches WindowCell::Window(a) && window_site(grid, a, c))
}

proof fn lemma_window_runs_are_sites(g: Grid<DoorCell>, axis: Axis, cs: Seq<WindowCandidate>, k: int)
    requires
        all_window_cells(cs) == scan_order(g.spec_size(), axis).filter(window_site_of(g, axis)),
        0 <= k < cs.len(),
        window_candidate_fits(g, axis, cs[k]),
        window_candidate_in(g.spec_size(), cs[k]),
    ensures
        window_runs_are_sites(g, cs[k]),
{
    assert forall|t: int| 0 <= t < cs[k].length implies window_site(
        g,
        cs[k].axis,
        #[trigger] step_across(cs[k].axis, cs[k].top_left, t),
    ) by {
        let x = step_across(cs[k].axis, cs[k].top_left, t);
        lemma_window_cells_in_all(cs, k, t);
        let f = scan_order(g.spec_size(), axis).filter(window_site_of(g, axis));
        let i = choose|i: int| 0 <= i < f.len() && f[i] == x;
        scan_order(g.spec_size(), axis).lemma_filter_pred(window_site_of(g, axis), i);
    }
}

/// `after` is `before` with a window along `axis` put in the cell `c`, and every other cell
/// unchanged.
pub open spec fn window_placed(
    before: Grid<WindowCell>,
    after: Grid<WindowCell>,
    c: Coord,
    axis: Axis,
) -> bool {
    &&& after.spec_size() == before.spec_size()
    &&& after.contains(c)
    &&& after.at(c) == WindowCell::Window(axis)
    &&& forall|d: Coord| #![trigger after.at(d)] after.contains(d) && d != c ==> after.at(d) == before.at(d)
}

fn place_window(
    grid: &Grid<DoorCell>,
    out: &mut Grid<WindowCell>,
    wc: WindowCandidate,
    rng: &mut Isaac64Rng,
)
    requires
        grid.wf(),
        old(out).wf(),
        old(out).spec_size() == grid.spec_size(),
        window_runs_are_sites(*grid, wc),
        forall|c: Coord| #[trigger] old(out).contains(c) ==> keeps_or_window(*grid, *old(out), c),
    ensures
        final(out).wf(),
        final(out).spec_size() == grid.spec_size(),
        forall|c: Coord| #[trigger] final(out).contains(c) ==> keeps_or_window(*grid, *final(out), c),
        exists|t: int|
            0 <= t < wc.length && #[trigger] window_placed(
                *old(out),
                *final(out),
                step_across(wc.axis, wc.top_left, t),
                wc.axis,
            ),
{
    let c = wc.single_window_coord(rng);
    let ghost before = *out;
    proof {
        let t = choose|t: int| 0 <= t < wc.length && c == step_across(wc.axis, wc.top_left, t);
        assert(window_site(*grid, wc.axis, step_across(wc.axis, wc.top_left, t)));
    }
    let ghost t = choose|t: int| 0 <= t < wc.length && c == step_across(wc.axis, wc.top_left, t);
    out.set(c, WindowCell::Window(wc.axis));
    proof {
        assert forall|x: Coord| #[trigger] out.contains(x) implies keeps_or_window(*grid, *out, x) by {
            assert(before.contains(x));
        }
        assert(window_placed(before, *out, step_across(wc.axis, wc.top_left, t), wc.axis));
    }
}

/// Inner runs: floor on both sides of each cell.
pub open spec fn inner_run() -> spec_fn(WindowCandidate) -> bool {
    |c: WindowCandidate| !c.external
}

/// Outer runs: space on a side of each cell.
pub open spec fn outer_run() -> spec_fn(WindowCandidate) -> bool {
    |c: WindowCandidate| c.external
}

/// `cs` splits the window sites of `g` along `axis` into runs: its cells, run after run, are
/// the sites in scan order; each run fits the axis and lies in the grid; and no run is
/// continued by the next one.
pub open spec fn axis_window_runs(g: Grid<DoorCell>, axis: Axis, cs: Seq<WindowCandidate>) -> bool {
    &&& all_window_cells(cs) == scan_order(g.spec_size(), axis).filter(window_site_of(g, axis))
    &&& forall|k: int| 0 <= k < cs.len() ==> window_candidate_fits(g, axis, #[trigger] cs[k])
    &&& forall|k: int| 0 <= k < cs.len() ==> window_candidate_in(g.spec_size(), #[trigger] cs[k])
    &&& forall|k: int| 0 < k < cs.len() ==> !window_continues(cs[k - 1], (#[trigger] cs[k]).top_left, cs[k].external)
}

/// `cands` is the runs of the window sites of `g` along X followed by those along Y.
pub open spec fn window_runs_of(g: Grid<DoorCell>, cands: Seq<WindowCandidate>) -> bool {
    exists|cx: Seq<WindowCandidate>, cy: Seq<WindowCandidate>|
        cands == cx + cy && #[trigger] axis_window_runs(g, Axis::X, cx) && #[trigger] axis_window_runs(g, Axis::Y, cy)
}

/// One of the cells of the run of `c` holds a window in `out`.
pub open spec fn run_has_window(out: Grid<WindowCell>, c: WindowCandidate) -> bool {
    exists|t: int| 0 <= t < c.length && (#[trigger] out.at(step_across(c.axis, c.top_left, t))) is Window
}

/// Each of the first `n` runs of `s` holds a window in `out`.
pub open spec fn first_runs_have_windows(out: Grid<WindowCell>, s: Seq<WindowCandidate>, n: int) -> bool {
    forall|j: int| 0 <= j < n ==> #[trigger] run_has_window(out, s[j])
}

/// The runs `cands` of `g` are reordered into the inner runs `si` and the outer runs `se`, and
/// in `out` the first quarter (rounded down) of `si` and the first two thirds (rounded down) of
/// `se` each hold a window.
pub open spec fn windows_spread(
    g: Grid<DoorCell>,
    out: Grid<WindowCell>,
    cands: Seq<WindowCandidate>,
    si: Seq<WindowCandidate>,
    se: Seq<WindowCandidate>,
) -> bool {
    &&& window_runs_of(g, cands)
    &&& si.to_multiset() == cands.filter(inner_run()).to_multiset()
    &&& se.to_multiset() == cands.filter(outer_run()).to_multiset()
    &&& first_runs_have_windows(out, si, (si.len() / 4) as int)
    &&& first_runs_have_windows(out, se, (2 * se.len() / 3) as int)
}

/// A window put in one cell leaves every window already there.
proof fn lemma_windows_persist(
    g: Grid<DoorCell>,
    before: Grid<WindowCell>,
    after: Grid<WindowCell>,
    c: Coord,
    axis: Axis,
    s: Seq<WindowCandidate>,
    n: int,
)
    requires
        window_placed(before, after, c, axis),
        before.spec_size() == g.spec_size(),
        0 <= n <= s.len(),
        forall|j: int| 0 <= j < s.len() ==> window_runs_are_sites(g, #[trigger] s[j]),
        first_runs_have_windows(before, s, n),
    ensures
        first_runs_have_windows(after, s, n),
{
    assert forall|j: int| 0 <= j < n implies #[trigger] run_has_window(after, s[j]) by {
        assert(run_has_window(before, s[j]));
        let x = s[j];
        let t = choose|t: int| 0 <= t < x.length && (#[trigger] before.at(step_across(x.axis, x.top_left, t))) is Window;
        let d = step_across(x.axis, x.top_left, t);
        assert(window_site(g, x.axis, d));
        assert(after.contains(d));
        assert(after.at(d) is Window);
    }
}

/// The run whose window was just put in holds a window.
proof fn lemma_window_in_run(before: Grid<WindowCell>, after: Grid<WindowCell>, wc: WindowCandidate, t: int)
    requires
        0 <= t < wc.length,
        window_placed(before, after, step_across(wc.axis, wc.top_left, t), wc.axis),
    ensures
        run_has_window(after, wc),
{
    assert(after.at(step_across(wc.axis, wc.top_left, t)) is Window);
}

/// Windows for the grid: the window candidates along each axis are split into inner and
/// outer ones (in the order of the X candidates then the Y candidates), each list is
/// shuffled, a quarter (rounded down) of the inner ones get a window and two thirds (rounded
/// down) of the outer ones get one, and a second one on a coin flip; each window goes in a
/// random cell of its run. Every other cell keeps what the door grid has.
#[verifier::rlimit(50)]
pub fn add_windows(grid: &Grid<DoorCell>, rng: &mut Isaac64Rng) -> (out: Grid<WindowCell>)
    requires
        grid.wf(),
    ensures
        out.wf(),
        out.spec_size() == grid.spec_size(),
        forall|c: Coord| #[trigger] out.contains(c) ==> keeps_or_window(*grid, out, c),
        exists|cands: Seq<WindowCandidate>, si: Seq<WindowCandidate>, se: Seq<WindowCandidate>|
            #[trigger] windows_spread(*grid, out, cands, si, se),
{
    let mut out_grid = grid.map_ref(window_cell);
    let window_candidates_x = identify_window_candidates_in_axis(grid, Axis::X);
    let window_candidates_y = identify_window_candidates_in_axis(grid, Axis::Y);
    let ghost cx = window_candidates_x@;
    let ghost cy = window_candidates_y@;
    let ghost all = cx + cy;
    let mut internal: Vec<WindowCandidate> = Vec::new();
    let mut external: Vec<WindowCandidate> = Vec::new();
    proof {
        assert(all.take(0) =~= Seq::<WindowCandidate>::empty());
        assert(internal@ =~= all.take(0).filter(inner_run()));
        assert(external@ =~= all.take(0).filter(outer_run()));
    }
    let mut round: usize = 0;
    while round < 2
        invariant
            grid.wf(),
            round <= 2,
            cx == window_candidates_x@,
            cy == window_candidates_y@,
            all == cx + cy,
            all_window_cells(cx) == scan_order(grid.spec_size(), Axis::X).filter(window_site_of(*grid, Axis::X)),
            all_window_cells(cy) == scan_order(grid.spec_size(), Axis::Y).filter(window_site_of(*grid, Axis::Y)),
            forall|k: int| 0 <= k < cx.len() ==> window_candidate_fits(*grid, Axis::X, #[trigger] cx[k]),
            forall|k: int| 0 <= k < cy.len() ==> window_candidate_fits(*grid, Axis::Y, #[trigger] cy[k]),
            forall|k: int| 0 <= k < cx.len() ==> window_candidate_in(grid.spec_size(), #[trigger] cx[k]),
            forall|k: int| 0 <= k < cy.len() ==> window_candidate_in(grid.spec_size(), #[trigger] cy[k]),
            forall|j: int| 0 <= j < internal@.len() ==> window_runs_are_sites(*grid, #[trigger] internal@[j]),
            forall|j: int| 0 <= j < external@.len() ==> window_runs_are_sites(*grid, #[trigger] external@[j]),
            ({
                let done = if round == 0 {
                    0
                } else if round == 1 {
                    cx.len() as int
                } else {
                    all.len() as int
                };
                &&& internal@ == all.take(done).filter(inner_run())
                &&& external@ == all.take(done).filter(outer_run())
            }),
        decreases 2 - round,
    {
        let list = if round == 0 {
            &window_candidates_x
        } else {
            &window_candidates_y
        };
        let ghost base: int = if round == 0 {
            0
        } else {
            cx.len() as int
        };
        let mut k: usize = 0;
        while k < list.len()
            invariant
                grid.wf(),
                round < 2,
                k <= list@.len(),
                all == cx + cy,
                base == if round == 0 {
                    0
                } else {
                    cx.len() as int
                },
                list@ == if round == 0 {
                    cx
                } else {
                    cy
                },
                all_window_cells(cx) == scan_order(grid.spec_size(), Axis::X).filter(window_site_of(*grid, Axis::X)),
                all_window_cells(cy) == scan_order(grid.spec_size(), Axis::Y).filter(window_site_of(*grid, Axis::Y)),
                forall|k: int| 0 <= k < cx.len() ==> window_candidate_fits(*grid, Axis::X, #[trigger] cx[k]),
                forall|k: int| 0 <= k < cy.len() ==> window_candidate_fits(*grid, Axis::Y, #[trigger] cy[k]),
                forall|k: int| 0 <= k < cx.len() ==> window_candidate_in(grid.spec_size(), #[trigger] cx[k]),
                forall|k: int| 0 <= k < cy.len() ==> window_candidate_in(grid.spec_size(), #[trigger] cy[k]),
                forall|j: int| 0 <= j < internal@.len() ==> window_runs_are_sites(*grid, #[trigger] internal@[j]),
                forall|j: int| 0 <= j < external@.len() ==> window_runs_are_sites(*grid, #[trigger] external@[j]),
                internal@ == all.take(base + k).filter(inner_run()),
                external@ == all.take(base + k).filter(outer_run()),
            decreases list@.len() - k,
        {
            let wc = list[k];
            proof {
                if round == 0 {
                    lemma_window_runs_are_sites(*grid, Axis::X, cx, k as int);
                } else {
                    lemma_window_runs_are_sites(*grid, Axis::Y, cy, k as int);
                }
                assert(all[base + k] == wc);
                assert(all.take(base + k + 1) =~= all.take(base + k).push(wc));
                all.take(base + k).lemma_filter_push(wc, inner_run());
                all.take(base + k).lemma_filter_push(wc, outer_run());
            }
            if wc.external {
                external.push(wc);
            } else {
                internal.push(wc);
            }
            k = k + 1;
        }
        round = round + 1;
    }
    let ghost i0 = internal@;
    let ghost e0 = external@;
    proof {
        assert(all.take(all.len() as int) =~= all);
    }
    shuffle(rng, &mut internal);
    shuffle(rng, &mut external);
    proof {
        assert forall|j: int| 0 <= j < internal@.len() implies window_runs_are_sites(*grid, #[trigger] internal@[j]) by {
            let x = internal@[j];
            assert(internal@.contains(x));
            vstd::seq_lib::to_multiset_contains(internal@, x);
            vstd::seq_lib::to_multiset_contains(i0, x);
        }
        assert forall|j: int| 0 <= j < external@.len() implies window_runs_are_sites(*grid, #[trigger] external@[j]) by {
            let x = external@[j];
            assert(external@.contains(x));
            vstd::seq_lib::to_multiset_contains(external@, x);
            vstd::seq_lib::to_multiset_contains(e0, x);
        }
    }
    let num_internal = internal.len() / 4;
    let num_external = external.len() / 3 * 2 + external.len() % 3 * 2 / 3;
    proof {
        let n = external@.len() as int;
        assert(num_external as int == 2 * n / 3) by (nonlinear_arith)
            requires
                num_external as int == n / 3 * 2 + n % 3 * 2 / 3,
                n >= 0,
        ;
    }
    let mut t: usize = 0;
    while t < num_internal
        invariant
            grid.wf(),
            out_grid.wf(),
            out_grid.spec_size() == grid.spec_size(),
            num_internal <= internal@.len(),
            t <= num_internal,
            forall|j: int| 0 <= j < internal@.len() ==> window_runs_are_sites(*grid, #[trigger] internal@[j]),
            forall|c: Coord| #[trigger] out_grid.contains(c) ==> keeps_or_window(*grid, out_grid, c),
            first_runs_have_windows(out_grid, internal@, t as int),
        decreases num_internal - t,
    {
        let ghost before = out_grid;
        place_window(grid, &mut out_grid, internal[t], rng);
        proof {
            let wc = internal@[t as int];
            let tt = choose|tt: int|
                0 <= tt < wc.length && #[trigger] window_placed(
                    before,
                    out_grid,
                    step_across(wc.axis, wc.top_left, tt),
                    wc.axis,
                );
            lemma_windows_persist(*grid, before, out_grid, step_across(wc.axis, wc.top_left, tt), wc.axis, internal@, t as int);
            lemma_window_in_run(before, out_grid, wc, tt);
        }
        t = t + 1;
    }
    let mut t: usize = 0;
    while t < num_external
        invariant
            grid.wf(),
            out_grid.wf(),
            out_grid.spec_size() == grid.spec_size(),
            num_external <= external@.len(),
            num_internal <= internal@.len(),
            t <= num_external,
            forall|j: int| 0 <= j < internal@.len() ==> window_runs_are_sites(*grid, #[trigger] internal@[j]),
            forall|j: int| 0 <= j < external@.len() ==> window_runs_are_sites(*grid, #[trigger] external@[j]),
            forall|c: Coord| #[trigger] out_grid.contains(c) ==> keeps_or_window(*grid, out_grid, c),
            first_runs_have_windows(out_grid, internal@, num_internal as int),
            first_runs_have_windows(out_grid, external@, t as int),
        decreases num_external - t,
    {
        let ghost before = out_grid;
        place_window(grid, &mut out_grid, external[t], rng);
        proof {
            let wc = external@[t as int];
            let tt = choose|tt: int|
                0 <= tt < wc.length && #[trigger] window_placed(
                    before,
                    out_grid,
                    step_across(wc.axis, wc.top_left, tt),
                    wc.axis,
                );
            lemma_windows_persist(*grid, before, out_grid, step_across(wc.axis, wc.top_left, tt), wc.axis, internal@, num_internal as int);
            lemma_windows_persist(*grid, before, out_grid, step_across(wc.axis, wc.top_left, tt), wc.axis, external@, t as int);
            lemma_window_in_run(before, out_grid, wc, tt);
        }
        if gen_range_i32(rng, 0, 2) == 0 {
            let ghost before2 = out_grid;
            place_window(grid, &mut out_grid, external[t], rng);
            proof {
                let wc = external@[t as int];
                let tt = choose|tt: int|
                    0 <= tt < wc.length && #[trigger] window_placed(
                        before2,
                        out_grid,
                        step_across(wc.axis, wc.top_left, tt),
                        wc.axis,
                    );
                lemma_windows_persist(*grid, before2, out_grid, step_across(wc.axis, wc.top_left, tt), wc.axis, internal@, num_internal as int);
                lemma_windows_persist(*grid, before2, out_grid, step_across(wc.axis, wc.top_left, tt), wc.axis, external@, t as int + 1);
            }
        }
        t = t + 1;
    }
    proof {
        assert(axis_window_runs(*grid, Axis::X, cx));
        assert(axis_window_runs(*grid, Axis::Y, cy));
        assert(window_runs_of(*grid, all));
        assert(windows_spread(*grid, out_grid, all, internal@, external@));
    }
    out_grid
}

} // verus!
