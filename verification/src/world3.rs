//! The third stage of world generation: the buildings, paths and graves laid on the second
//! grid. Where something lands depends on chance and on blob shapes found elsewhere; these are
//! the steps that, given where, lay the cells.
use crate::geometry::{
    all_directions, coord_minus, coord_plus, direction_delta, edge_coords, edge_sequence, is_neighbour,
    lemma_neighbours, size_contains, Coord, Direction, Size,
};
use crate::grid::Grid;
use crate::terrain::WorldCell3;
use crate::town::lemma_edge_sequence_inside;
use crate::random::{choose_one, gen_bool, gen_range_i32, gen_range_u32, shuffle};
use crate::water::{is_water, WaterType, WorldCell2};
use rand_isaac::Isaac64Rng;
use vstd::prelude::*;

verus! {

/// `c` lies in the rectangle with top-left cell `tl` and size `s`.
pub open spec fn in_rect(tl: Coord, s: Size, c: Coord) -> bool {
    &&& tl.x <= c.x < tl.x + s.width
    &&& tl.y <= c.y < tl.y + s.height
}

/// The rectangle with top-left cell `tl` and size `s` lies inside a grid of size `g`.
pub open spec fn rect_inside(g: Size, tl: Coord, s: Size) -> bool {
    &&& 0 <= tl.x
    &&& 0 <= tl.y
    &&& tl.x + s.width <= g.width
    &&& tl.y + s.height <= g.height
}

/// `c` lies on the border of the rectangle with top-left cell `tl` and size `s`.
pub open spec fn on_rect_edge(tl: Coord, s: Size, c: Coord) -> bool {
    edge_sequence(s).contains(coord_minus(c, tl))
}

/// Sets every cell of a rectangle inside the grid to `v`.
pub fn fill_rect<T: Copy>(grid: &mut Grid<T>, tl: Coord, s: Size, v: T)
    requires
        old(grid).wf(),
        rect_inside(old(grid).spec_size(), tl, s),
    ensures
        final(grid).wf(),
        final(grid).spec_size() == old(grid).spec_size(),
        forall|c: Coord|
            #[trigger] final(grid).contains(c) ==> final(grid).at(c) == if in_rect(tl, s, c) {
                v
            } else {
                old(grid).at(c)
            },
{
    let ghost g0 = *grid;
    let mut dy: u32 = 0;
    while dy < s.height
        invariant
            grid.wf(),
            grid.spec_size() == g0.spec_size(),
            rect_inside(g0.spec_size(), tl, s),
            g0.wf(),
            dy <= s.height,
            forall|c: Coord|
                #[trigger] grid.contains(c) ==> grid.at(c) == if in_rect(tl, s, c) && c.y < tl.y + dy {
                    v
                } else {
                    g0.at(c)
                },
        decreases s.height - dy,
    {
        let mut dx: u32 = 0;
        while dx < s.width
            invariant
                grid.wf(),
                grid.spec_size() == g0.spec_size(),
                rect_inside(g0.spec_size(), tl, s),
                g0.wf(),
                dy < s.height,
                dx <= s.width,
                forall|c: Coord|
                    #[trigger] grid.contains(c) ==> grid.at(c) == if in_rect(tl, s, c) && (c.y < tl.y + dy
                        || (c.y == tl.y + dy && c.x < tl.x + dx)) {
                        v
                    } else {
                        g0.at(c)
                    },
            decreases s.width - dx,
        {
            let c = Coord { x: tl.x + dx as i32, y: tl.y + dy as i32 };
            let ghost before = *grid;
            grid.set(c, v);
            proof {
                assert forall|d: Coord| #[trigger] grid.contains(d) implies grid.at(d) == if in_rect(tl, s, d)
                    && (d.y < tl.y + dy || (d.y == tl.y + dy && d.x < tl.x + dx + 1)) {
                    v
                } else {
                    g0.at(d)
                } by {
                    assert(before.contains(d));
                    if d != c {
                        assert(grid.at(d) == before.at(d));
                    }
                }
            }
            dx = dx + 1;
        }
        dy = dy + 1;
    }
}

/// Sets every border cell of a rectangle inside the grid to `v`.
pub fn set_rect_edge<T: Copy>(grid: &mut Grid<T>, tl: Coord, s: Size, v: T)
    requires
        old(grid).wf(),
        rect_inside(old(grid).spec_size(), tl, s),
    ensures
        final(grid).wf(),
        final(grid).spec_size() == old(grid).spec_size(),
        forall|c: Coord|
            #[trigger] final(grid).contains(c) ==> final(grid).at(c) == if on_rect_edge(tl, s, c) {
                v
            } else {
                old(grid).at(c)
            },
{
    let ghost g0 = *grid;
    let edges = edge_coords(s);
    let ghost es = edge_sequence(s);
    proof {
        lemma_edge_sequence_inside(s);
    }
    let mut k: usize = 0;
    while k < edges.len()
        invariant
            grid.wf(),
            g0.wf(),
            grid.spec_size() == g0.spec_size(),
            rect_inside(g0.spec_size(), tl, s),
            edges@ == es,
            es == edge_sequence(s),
            forall|j: int| 0 <= j < es.len() ==> size_contains(s, #[trigger] es[j]),
            k <= es.len(),
            forall|c: Coord|
                #[trigger] grid.contains(c) ==> grid.at(c) == if es.take(k as int).contains(coord_minus(c, tl)) {
                    v
                } else {
                    g0.at(c)
                },
        decreases es.len() - k,
    {
        let e = edges[k];
        assert(size_contains(s, es[k as int]));
        let c = Coord { x: tl.x + e.x, y: tl.y + e.y };
        let ghost before = *grid;
        grid.set(c, v);
        proof {
            assert forall|d: Coord| #[trigger] grid.contains(d) implies grid.at(d) == if es.take(k + 1).contains(
                coord_minus(d, tl),
            ) {
                v
            } else {
                g0.at(d)
            } by {
                let t0 = es.take(k as int);
                let t1 = es.take(k + 1);
                assert(t1 =~= t0.push(e));
                assert(before.contains(d));
                let rd = coord_minus(d, tl);
                if d != c {
                    assert(grid.at(d) == before.at(d));
                    assert(rd != e);
                    if t0.contains(rd) {
                        let j = choose|j: int| 0 <= j < t0.len() && t0[j] == rd;
                        assert(t1[j] == rd);
                    }
                    if t1.contains(rd) {
                        let j = choose|j: int| 0 <= j < t1.len() && t1[j] == rd;
                        assert(t0[j] == rd);
                    }
                } else {
                    assert(rd == e);
                    assert(t1[k as int] == e);
                }
            }
        }
        k = k + 1;
    }
    assert(es.take(es.len() as int) =~= es);
}

/// The cell `k` rows below `c`.
pub open spec fn below(c: Coord, k: int) -> Coord {
    Coord { x: c.x, y: (c.y + k) as i32 }
}

/// The `k`-th cell below `c` is the first cell at or below `c`, in its column, that is not
/// water, and it lies in the grid.
pub open spec fn first_dry_below(g: Grid<WorldCell2>, c: Coord, k: int) -> bool {
    &&& 0 <= k
    &&& c.y + k < g.spec_size().height
    &&& g.contains(below(c, k))
    &&& !is_water(g, below(c, k))
    &&& forall|j: int| 0 <= j < k ==> is_water(g, #[trigger] below(c, j))
}

fn water_at(grid: &Grid<WorldCell2>, c: Coord) -> (b: bool)
    requires
        grid.wf(),
    ensures
        b == is_water(*grid, c),
{
    match grid.get(c) {
        Some(WorldCell2::Water(_)) => true,
        _ => false,
    }
}

/// Seven rows below the first cell that is not water at or below the centre of the lake, in
/// its column. Such a cell must exist in the grid.
pub fn lake_bottom(grid: &Grid<WorldCell2>, lake_centre: Coord) -> (r: Coord)
    requires
        grid.wf(),
        grid.contains(lake_centre),
        grid.spec_size().height + 7 <= i32::MAX,
        exists|k: int|
            0 <= k && lake_centre.y + k < grid.spec_size().height && !is_water(*grid, #[trigger] below(lake_centre, k)),
    ensures
        exists|k: int| #[trigger] first_dry_below(*grid, lake_centre, k) && r == below(lake_centre, k + 7),
{
    let ghost k0 = choose|k: int|
        0 <= k && lake_centre.y + k < grid.spec_size().height && !is_water(*grid, #[trigger] below(lake_centre, k));
    let mut c = lake_centre;
    while water_at(grid, c)
        invariant
            grid.wf(),
            grid.contains(lake_centre),
            0 <= k0,
            lake_centre.y + k0 < grid.spec_size().height,
            !is_water(*grid, below(lake_centre, k0)),
            c.x == lake_centre.x,
            lake_centre.y <= c.y <= lake_centre.y + k0,
            forall|j: int| 0 <= j < c.y - lake_centre.y ==> is_water(*grid, #[trigger] below(lake_centre, j)),
        decreases lake_centre.y + k0 - c.y,
    {
        assert(c == below(lake_centre, c.y - lake_centre.y));
        assert(c.y != lake_centre.y + k0);
        c = Coord { x: c.x, y: c.y + 1 };
    }
    let ghost k = c.y - lake_centre.y;
    proof {
        assert(c == below(lake_centre, k));
        assert(grid.contains(c));
        assert(first_dry_below(*grid, lake_centre, k));
    }
    Coord { x: c.x, y: c.y + 7 }
}

/// Lays the pier: two columns of floor, 15 cells long, going north from the bottom of the lake
/// (the column of `lake_bottom` and the one to its west). Returns where two passengers wait
/// on it.
pub fn build_pier(grid: &mut Grid<WorldCell3>, lake_bottom: Coord) -> (npc_spawns: Vec<Coord>)
    requires
        old(grid).wf(),
        1 <= lake_bottom.x < old(grid).spec_size().width,
        14 <= lake_bottom.y < old(grid).spec_size().height,
    ensures
        final(grid).wf(),
        final(grid).spec_size() == old(grid).spec_size(),
        forall|c: Coord|
            #[trigger] final(grid).contains(c) ==> final(grid).at(c) == if in_rect(
                Coord { x: (lake_bottom.x - 1) as i32, y: (lake_bottom.y - 14) as i32 },
                Size { width: 2, height: 15 },
                c,
            ) {
                WorldCell3::Floor
            } else {
                old(grid).at(c)
            },
        npc_spawns@ == seq![
            Coord { x: lake_bottom.x, y: (lake_bottom.y - 12) as i32 },
            Coord { x: (lake_bottom.x - 1) as i32, y: (lake_bottom.y - 12) as i32 },
        ],
{
    fill_rect(
        grid,
        Coord { x: lake_bottom.x - 1, y: lake_bottom.y - 14 },
        Size { width: 2, height: 15 },
        WorldCell3::Floor,
    );
    let spawns = vec![
        Coord { x: lake_bottom.x, y: lake_bottom.y - 12 },
        Coord { x: lake_bottom.x - 1, y: lake_bottom.y - 12 },
    ];
    spawns
}

/// The cells of `inside` that are floor and lie in an even column, in order.
pub open spec fn grave_candidates_of(g: Grid<WorldCell3>, inside: Seq<Coord>) -> Seq<Coord> {
    inside.filter(|c: Coord| g.at(c) == WorldCell3::Floor && c.x % 2 == 0)
}

/// Where graves may be dug among the cells of a blob: its floor cells in even columns. Every
/// cell must lie in the grid.
pub fn grave_candidates(grid: &Grid<WorldCell3>, inside: &Vec<Coord>) -> (r: Vec<Coord>)
    requires
        grid.wf(),
        forall|k: int| 0 <= k < inside@.len() ==> grid.contains(#[trigger] inside@[k]),
    ensures
        r@ == grave_candidates_of(*grid, inside@),
{
    let mut r: Vec<Coord> = Vec::new();
    let mut k: usize = 0;
    while k < inside.len()
        invariant
            grid.wf(),
            forall|j: int| 0 <= j < inside@.len() ==> grid.contains(#[trigger] inside@[j]),
            k <= inside@.len(),
            r@ == grave_candidates_of(*grid, inside@.take(k as int)),
        decreases inside@.len() - k,
    {
        let c = inside[k];
        assert(grid.contains(inside@[k as int]));
        assert(inside@.take(k + 1) =~= inside@.take(k as int).push(c));
        proof {
            inside@.take(k as int).lemma_filter_push(c, |c: Coord| grid.at(c) == WorldCell3::Floor && c.x % 2 == 0);
        }
        if *grid.get_checked(c) == WorldCell3::Floor && c.x % 2 == 0 {
            r.push(c);
        }
        k = k + 1;
    }
    assert(inside@.take(inside@.len() as int) =~= inside@);
    r
}

/// Sets each cell of `cells` that lies in the grid to `v`; the others are left out.
pub fn set_cells_inside<T: Copy>(grid: &mut Grid<T>, cells: &Vec<Coord>, v: T)
    requires
        old(grid).wf(),
    ensures
        final(grid).wf(),
        final(grid).spec_size() == old(grid).spec_size(),
        forall|c: Coord|
            #[trigger] final(grid).contains(c) ==> final(grid).at(c) == if cells@.contains(c) {
                v
            } else {
                old(grid).at(c)
            },
{
    let ghost g0 = *grid;
    let mut k: usize = 0;
    while k < cells.len()
        invariant
            grid.wf(),
            grid.spec_size() == g0.spec_size(),
            k <= cells@.len(),
            forall|c: Coord|
                #[trigger] grid.contains(c) ==> grid.at(c) == if cells@.take(k as int).contains(c) {
                    v
                } else {
                    g0.at(c)
                },
        decreases cells@.len() - k,
    {
        let c = cells[k];
        let ghost before = *grid;
        let inside = grid.is_valid(c);
        if inside {
            grid.set(c, v);
        }
        proof {
            assert forall|d: Coord| #[trigger] grid.contains(d) implies grid.at(d) == if cells@.take(
                k + 1,
            ).contains(d) {
                v
            } else {
                g0.at(d)
            } by {
                let t0 = cells@.take(k as int);
                let t1 = cells@.take(k + 1);
                assert(t1 =~= t0.push(c));
                assert(before.contains(d));
                if d != c {
                    assert(grid.at(d) == before.at(d));
                    if t0.contains(d) {
                        let j = choose|j: int| 0 <= j < t0.len() && t0[j] == d;
                        assert(t1[j] == d);
                    }
                    if t1.contains(d) {
                        let j = choose|j: int| 0 <= j < t1.len() && t1[j] == d;
                        assert(t0[j] == d);
                    }
                } else {
                    assert(t1[k as int] == c);
                }
            }
        }
        k = k + 1;
    }
    assert(cells@.take(cells@.len() as int) =~= cells@);
}

/// Every cell of `cells` lies in the grid and is water: where an island may rise.
pub fn all_water(grid: &Grid<WorldCell3>, cells: &Vec<Coord>) -> (b: bool)
    requires
        grid.wf(),
    ensures
        b == forall|k: int| 0 <= k < cells@.len() ==> grid.contains(#[trigger] cells@[k]) && grid.at(cells@[k]) is Water,
{
    let mut k: usize = 0;
    while k < cells.len()
        invariant
            grid.wf(),
            k <= cells@.len(),
            forall|j: int| 0 <= j < k ==> grid.contains(#[trigger] cells@[j]) && grid.at(cells@[j]) is Water,
        decreases cells@.len() - k,
    {
        let c = cells[k];
        if !grid.is_valid(c) {
            return false;
        }
        match grid.get_checked(c) {
            WorldCell3::Water(_) => {},
            _ => {
                return false;
            },
        }
        k = k + 1;
    }
    true
}

/// Blasts the cells of `cells`, which must all lie in the grid, into town ground, sparing the
/// river.
pub fn blast_sparing_river(grid: &mut Grid<WorldCell3>, cells: &Vec<Coord>)
    requires
        old(grid).wf(),
        forall|k: int| 0 <= k < cells@.len() ==> old(grid).contains(#[trigger] cells@[k]),
    ensures
        final(grid).wf(),
        final(grid).spec_size() == old(grid).spec_size(),
        forall|c: Coord|
            #[trigger] final(grid).contains(c) ==> final(grid).at(c) == if cells@.contains(c) && old(grid).at(c)
                != WorldCell3::Water(WaterType::River) {
                WorldCell3::TownGround
            } else {
                old(grid).at(c)
            },
{
    let ghost g0 = *grid;
    let mut k: usize = 0;
    while k < cells.len()
        invariant
            grid.wf(),
            grid.spec_size() == g0.spec_size(),
            forall|j: int| 0 <= j < cells@.len() ==> g0.contains(#[trigger] cells@[j]),
            k <= cells@.len(),
            forall|c: Coord|
                #[trigger] grid.contains(c) ==> grid.at(c) == if cells@.take(k as int).contains(c) && g0.at(c)
                    != WorldCell3::Water(WaterType::River) {
                    WorldCell3::TownGround
                } else {
                    g0.at(c)
                },
        decreases cells@.len() - k,
    {
        let c = cells[k];
        let ghost before = *grid;
        assert(g0.contains(cells@[k as int]));
        let river = match grid.get_checked(c) {
            WorldCell3::Water(WaterType::River) => true,
            _ => false,
        };
        if !river {
            grid.set(c, WorldCell3::TownGround);
        }
        proof {
            assert forall|d: Coord| #[trigger] grid.contains(d) implies grid.at(d) == if cells@.take(k + 1).contains(d)
                && g0.at(d) != WorldCell3::Water(WaterType::River) {
                WorldCell3::TownGround
            } else {
                g0.at(d)
            } by {
                let t0 = cells@.take(k as int);
                let t1 = cells@.take(k + 1);
                assert(t1 =~= t0.push(c));
                assert(before.contains(d));
                if d != c {
                    assert(grid.at(d) == before.at(d));
                    if t0.contains(d) {
                        let j = choose|j: int| 0 <= j < t0.len() && t0[j] == d;
                        assert(t1[j] == d);
                    }
                    if t1.contains(d) {
                        let j = choose|j: int| 0 <= j < t1.len() && t1[j] == d;
                        assert(t0[j] == d);
                    }
                } else {
                    assert(t1[k as int] == c);
                    assert(before.contains(c));
                }
            }
        }
        k = k + 1;
    }
    assert(cells@.take(cells@.len() as int) =~= cells@);
}

/// Sets each cell of `cells`, which must all lie in the grid, to `v`.
pub fn set_cells<T: Copy>(grid: &mut Grid<T>, cells: &Vec<Coord>, v: T)
    requires
        old(grid).wf(),
        forall|k: int| 0 <= k < cells@.len() ==> old(grid).contains(#[trigger] cells@[k]),
    ensures
        final(grid).wf(),
        final(grid).spec_size() == old(grid).spec_size(),
        forall|c: Coord|
            #[trigger] final(grid).contains(c) ==> final(grid).at(c) == if cells@.contains(c) {
                v
            } else {
                old(grid).at(c)
            },
{
    let ghost g0 = *grid;
    let mut k: usize = 0;
    while k < cells.len()
        invariant
            grid.wf(),
            grid.spec_size() == g0.spec_size(),
            forall|j: int| 0 <= j < cells@.len() ==> g0.contains(#[trigger] cells@[j]),
            k <= cells@.len(),
            forall|c: Coord|
                #[trigger] grid.contains(c) ==> grid.at(c) == if cells@.take(k as int).contains(c) {
                    v
                } else {
                    g0.at(c)
                },
        decreases cells@.len() - k,
    {
        let c = cells[k];
        let ghost before = *grid;
        assert(g0.contains(cells@[k as int]));
        grid.set(c, v);
        proof {
            assert forall|d: Coord| #[trigger] grid.contains(d) implies grid.at(d) == if cells@.take(
                k + 1,
            ).contains(d) {
                v
            } else {
                g0.at(d)
            } by {
                let t0 = cells@.take(k as int);
                let t1 = cells@.take(k + 1);
                assert(t1 =~= t0.push(c));
                assert(before.contains(d));
                if d != c {
                    assert(grid.at(d) == before.at(d));
                    if t0.contains(d) {
                        let j = choose|j: int| 0 <= j < t0.len() && t0[j] == d;
                        assert(t1[j] == d);
                    }
                    if t1.contains(d) {
                        let j = choose|j: int| 0 <= j < t1.len() && t1[j] == d;
                        assert(t0[j] == d);
                    }
                } else {
                    assert(t1[k as int] == c);
                }
            }
        }
        k = k + 1;
    }
    assert(cells@.take(cells@.len() as int) =~= cells@);
}

/// `chosen` is the first `n` (or all, when fewer) elements of some reordering of `candidates`.
pub open spec fn first_of_reordering(chosen: Seq<Coord>, candidates: Seq<Coord>, n: int) -> bool {
    exists|s: Seq<Coord>|
        #[trigger] s.to_multiset() == candidates.to_multiset() && s.len() == candidates.len() && chosen
            == s.take(if n < s.len() {
            n
        } else {
            s.len() as int
        })
}

/// Shuffles the candidates with the generator and sets the first `n` of them (all, when there
/// are fewer) to `v`. Returns the cells set.
pub fn place_at_random<T: Copy>(
    grid: &mut Grid<T>,
    candidates: Vec<Coord>,
    n: usize,
    v: T,
    rng: &mut Isaac64Rng,
) -> (chosen: Vec<Coord>)
    requires
        old(grid).wf(),
        forall|k: int| 0 <= k < candidates@.len() ==> old(grid).contains(#[trigger] candidates@[k]),
    ensures
        first_of_reordering(chosen@, candidates@, n as int),
        final(grid).wf(),
        final(grid).spec_size() == old(grid).spec_size(),
        forall|c: Coord|
            #[trigger] final(grid).contains(c) ==> final(grid).at(c) == if chosen@.contains(c) {
                v
            } else {
                old(grid).at(c)
            },
{
    let mut shuffled = candidates;
    let ghost c0 = shuffled@;
    shuffle(rng, &mut shuffled);
    let mut chosen: Vec<Coord> = Vec::new();
    let mut k: usize = 0;
    while k < n && k < shuffled.len()
        invariant
            k <= shuffled@.len(),
            k <= n,
            chosen@ == shuffled@.take(k as int),
        decreases shuffled@.len() - k,
    {
        chosen.push(shuffled[k]);
        k = k + 1;
        assert(chosen@ =~= shuffled@.take(k as int));
    }
    proof {
        assert(shuffled@.to_multiset() == c0.to_multiset());
        assert(k == if (n as int) < shuffled@.len() { n as int } else { shuffled@.len() as int });
        assert forall|j: int| 0 <= j < chosen@.len() implies grid.contains(#[trigger] chosen@[j]) by {
            let x = shuffled@[j];
            assert(shuffled@.contains(x));
            vstd::seq_lib::lemma_multiset_commutative(shuffled@, c0);
            assert(shuffled@.to_multiset().count(x) > 0) by {
                shuffled@.to_multiset_ensures();
            }
            c0.to_multiset_ensures();
            assert(c0.contains(x));
        }
    }
    set_cells(grid, &chosen, v);
    chosen
}

/// Marks the cells of a town's area that are plain ground as town ground. Every cell must lie
/// in the grid.
pub fn mark_town_ground(grid: &mut Grid<WorldCell3>, area: &Vec<Coord>)
    requires
        old(grid).wf(),
        forall|k: int| 0 <= k < area@.len() ==> old(grid).contains(#[trigger] area@[k]),
    ensures
        final(grid).wf(),
        final(grid).spec_size() == old(grid).spec_size(),
        forall|c: Coord|
            #[trigger] final(grid).contains(c) ==> final(grid).at(c) == if area@.contains(c)
                && old(grid).at(c) == WorldCell3::Ground {
                WorldCell3::TownGround
            } else {
                old(grid).at(c)
            },
{
    let ghost g0 = *grid;
    let mut k: usize = 0;
    while k < area.len()
        invariant
            grid.wf(),
            grid.spec_size() == g0.spec_size(),
            forall|j: int| 0 <= j < area@.len() ==> g0.contains(#[trigger] area@[j]),
            k <= area@.len(),
            forall|c: Coord|
                #[trigger] grid.contains(c) ==> grid.at(c) == if area@.take(k as int).contains(c) && g0.at(c)
                    == WorldCell3::Ground {
                    WorldCell3::TownGround
                } else {
                    g0.at(c)
                },
        decreases area@.len() - k,
    {
        let c = area[k];
        let ghost before = *grid;
        assert(g0.contains(area@[k as int]));
        let cell = *grid.get_checked(c);
        if cell == WorldCell3::Ground {
            grid.set(c, WorldCell3::TownGround);
        }
        proof {
            assert forall|d: Coord| #[trigger] grid.contains(d) implies grid.at(d) == if area@.take(k + 1).contains(
                d,
            ) && g0.at(d) == WorldCell3::Ground {
                WorldCell3::TownGround
            } else {
                g0.at(d)
            } by {
                let t0 = area@.take(k as int);
                let t1 = area@.take(k + 1);
                assert(t1 =~= t0.push(c));
                assert(before.contains(d));
                if d != c {
                    assert(grid.at(d) == before.at(d));
                    if t0.contains(d) {
                        let j = choose|j: int| 0 <= j < t0.len() && t0[j] == d;
                        assert(t1[j] == d);
                    }
                    if t1.contains(d) {
                        let j = choose|j: int| 0 <= j < t1.len() && t1[j] == d;
                        assert(t0[j] == d);
                    }
                } else {
                    assert(t1[k as int] == c);
                    if t0.contains(d) {
                        assert(before.at(d) == if g0.at(d) == WorldCell3::Ground {
                            WorldCell3::TownGround
                        } else {
                            g0.at(d)
                        });
                    }
                }
            }
        }
        k = k + 1;
    }
    assert(area@.take(area@.len() as int) =~= area@);
}

/// Every cell of the rectangle is town ground.
pub open spec fn all_town_ground(g: Grid<WorldCell3>, tl: Coord, s: Size) -> bool {
    forall|c: Coord| #[trigger] in_rect(tl, s, c) ==> g.at(c) == WorldCell3::TownGround
}

/// True iff every cell of a rectangle inside the grid is town ground, so a house may stand
/// there. The rectangle must lie in the grid.
pub fn house_fits(grid: &Grid<WorldCell3>, tl: Coord, s: Size) -> (b: bool)
    requires
        grid.wf(),
        rect_inside(grid.spec_size(), tl, s),
    ensures
        b == all_town_ground(*grid, tl, s),
{
    let mut dy: u32 = 0;
    while dy < s.height
        invariant
            grid.wf(),
            rect_inside(grid.spec_size(), tl, s),
            dy <= s.height,
            forall|c: Coord| #[trigger] in_rect(tl, s, c) && c.y < tl.y + dy ==> grid.at(c) == WorldCell3::TownGround,
        decreases s.height - dy,
    {
        let mut dx: u32 = 0;
        while dx < s.width
            invariant
                grid.wf(),
                rect_inside(grid.spec_size(), tl, s),
                dy < s.height,
                dx <= s.width,
                forall|c: Coord|
                    #[trigger] in_rect(tl, s, c) && (c.y < tl.y + dy || (c.y == tl.y + dy && c.x < tl.x + dx))
                        ==> grid.at(c) == WorldCell3::TownGround,
            decreases s.width - dx,
        {
            let c = Coord { x: tl.x + dx as i32, y: tl.y + dy as i32 };
            if *grid.get_checked(c) != WorldCell3::TownGround {
                assert(in_rect(tl, s, c));
                return false;
            }
            dx = dx + 1;
        }
        dy = dy + 1;
    }
    true
}

/// The cell `c` of a house standing on the rectangle at `tl` of size `s`, with its door at
/// `door`: the door, the walls on the border of the rectangle shrunk by one cell on each side,
/// the floor inside them, and `other` outside.
pub open spec fn house_cell(tl: Coord, s: Size, door: Coord, c: Coord, other: WorldCell3) -> WorldCell3 {
    let itl = Coord { x: (tl.x + 1) as i32, y: (tl.y + 1) as i32 };
    let is = Size { width: (s.width - 2) as u32, height: (s.height - 2) as u32 };
    if c == door {
        WorldCell3::Door
    } else if on_rect_edge(itl, is, c) {
        WorldCell3::Wall
    } else if in_rect(itl, is, c) {
        WorldCell3::Floor
    } else {
        other
    }
}

/// Builds a house on a rectangle inside the grid: floor and walls on the rectangle shrunk by one
/// cell on each side, and a door.
pub fn build_house(grid: &mut Grid<WorldCell3>, tl: Coord, s: Size, door: Coord)
    requires
        old(grid).wf(),
        s.width >= 2,
        s.height >= 2,
        rect_inside(old(grid).spec_size(), tl, s),
        old(grid).contains(door),
    ensures
        final(grid).wf(),
        final(grid).spec_size() == old(grid).spec_size(),
        forall|c: Coord|
            #[trigger] final(grid).contains(c) ==> final(grid).at(c) == house_cell(tl, s, door, c, old(grid).at(c)),
{
    let itl = Coord { x: tl.x + 1, y: tl.y + 1 };
    let is = Size { width: s.width - 2, height: s.height - 2 };
    let ghost g0 = *grid;
    fill_rect(grid, itl, is, WorldCell3::Floor);
    let ghost g1 = *grid;
    set_rect_edge(grid, itl, is, WorldCell3::Wall);
    let ghost g2 = *grid;
    grid.set(door, WorldCell3::Door);
    proof {
        assert forall|c: Coord| #[trigger] grid.contains(c) implies grid.at(c) == house_cell(tl, s, door, c, g0.at(c)) by {
            assert(g2.contains(c));
            assert(g1.contains(c));
            if c != door {
                assert(grid.at(c) == g2.at(c));
            }
        }
    }
}

/// The cells of the path from a house's door to the road on the row of `lake_bottom`: the
/// column of the door strictly between the two rows.
pub open spec fn on_house_path(door: Coord, lake_bottom: Coord, c: Coord) -> bool {
    &&& c.x == door.x
    &&& if door.y < lake_bottom.y {
        door.y < c.y < lake_bottom.y
    } else {
        lake_bottom.y < c.y < door.y
    }
}

/// Lays the path from a house's door to the road. The path must lie in the grid.
pub fn house_path(grid: &mut Grid<WorldCell3>, door: Coord, lake_bottom: Coord)
    requires
        old(grid).wf(),
        old(grid).contains(door),
        old(grid).contains(lake_bottom),
    ensures
        final(grid).wf(),
        final(grid).spec_size() == old(grid).spec_size(),
        forall|c: Coord|
            #[trigger] final(grid).contains(c) ==> final(grid).at(c) == if on_house_path(door, lake_bottom, c) {
                WorldCell3::Floor
            } else {
                old(grid).at(c)
            },
{
    let ghost g0 = *grid;
    let (from, to) = if door.y < lake_bottom.y {
        (door.y + 1, lake_bottom.y)
    } else {
        (lake_bottom.y + 1, door.y)
    };
    if from < to {
        fill_rect(grid, Coord { x: door.x, y: from }, Size { width: 1, height: (to - from) as u32 }, WorldCell3::Floor);
    }
    proof {
        assert forall|c: Coord| #[trigger] grid.contains(c) implies grid.at(c) == if on_house_path(door, lake_bottom, c) {
            WorldCell3::Floor
        } else {
            g0.at(c)
        } by {
            assert(g0.contains(c));
        }
    }
}

/// A house placed by `try_build_house`: its rectangle, the horizontal offset of its door from
/// the bottom of the lake, and its door.
#[derive(Clone, Copy, Debug, PartialEq, Eq, Structural)]
pub struct House {
    pub top_left: Coord,
    pub size: Size,
    pub door_offset: i32,
    pub door: Coord,
}

/// The bounds of the area around the bottom of the lake where houses are tried.
pub open spec fn lake_town_fits(g: Size, lake_bottom: Coord) -> bool {
    &&& 20 <= lake_bottom.x
    &&& lake_bottom.x + 20 <= g.width
    &&& 10 <= lake_bottom.y
    &&& lake_bottom.y + 10 <= g.height
}

/// A rectangle that an attempt at a house of the lake town may draw: 6 to 8 cells wide and 6
/// to 7 tall, starting between 20 cells west of the bottom of the lake and 20 cells east minus
/// the width, and just south of the road or just north of it.
pub open spec fn house_candidate(lake_bottom: Coord, tl: Coord, s: Size) -> bool {
    &&& 6 <= s.width <= 8
    &&& 6 <= s.height <= 7
    &&& lake_bottom.x - 20 <= tl.x < lake_bottom.x + 20 - s.width
    &&& (lake_bottom.y + 1 <= tl.y < lake_bottom.y + 4 || lake_bottom.y - s.height - 3 <= tl.y < lake_bottom.y
        - s.height)
}

/// One attempt at a house of the lake town: a size of 6 to 8 by 6 to 7, a column between 20
/// cells west of the bottom of the lake and 20 cells east minus the width, and, by a coin
/// toss, a row just south of the road or just north of it. When all of it is town ground, the
/// house is built with its door on the side facing the road, at a random column away from its
/// corners, and a path is laid from the door to the road. Otherwise nothing changes; so an
/// attempt where every rectangle it may draw is town ground always builds.
pub fn try_build_house(grid: &mut Grid<WorldCell3>, lake_bottom: Coord, rng: &mut Isaac64Rng) -> (r: Option<House>)
    requires
        old(grid).wf(),
        lake_town_fits(old(grid).spec_size(), lake_bottom),
    ensures
        final(grid).wf(),
        final(grid).spec_size() == old(grid).spec_size(),
        r is None ==> *final(grid) == *old(grid),
        r is None ==> exists|tl: Coord, s: Size|
            #[trigger] house_candidate(lake_bottom, tl, s) && !all_town_ground(*old(grid), tl, s),
        r matches Some(h) ==> {
            &&& 6 <= h.size.width <= 8
            &&& 6 <= h.size.height <= 7
            &&& lake_bottom.x - 20 <= h.top_left.x < lake_bottom.x + 20 - h.size.width
            &&& (lake_bottom.y + 1 <= h.top_left.y < lake_bottom.y + 4 || lake_bottom.y - h.size.height - 3 <= h.top_left.y
                < lake_bottom.y - h.size.height)
            &&& all_town_ground(*old(grid), h.top_left, h.size)
            &&& h.door.x == lake_bottom.x + h.door_offset
            &&& h.top_left.x + 2 <= h.door.x < h.top_left.x + h.size.width - 2
            &&& h.door.y == if h.top_left.y < lake_bottom.y {
                h.top_left.y + h.size.height - 2
            } else {
                h.top_left.y + 1
            }
            &&& forall|c: Coord|
                #[trigger] final(grid).contains(c) ==> final(grid).at(c) == if on_house_path(h.door, lake_bottom, c) {
                    WorldCell3::Floor
                } else {
                    house_cell(h.top_left, h.size, h.door, c, old(grid).at(c))
                }
        },
{
    let width = gen_range_u32(rng, 6, 9);
    let height = gen_range_u32(rng, 6, 8);
    let size = Size { width, height };
    let road_left: i32 = -20;
    let road_right: i32 = 20;
    let x = gen_range_i32(rng, road_left, road_right - width as i32);
    let y = if gen_bool(rng) {
        gen_range_i32(rng, 1, 4)
    } else {
        gen_range_i32(rng, -(height as i32) - 3, -(height as i32))
    };
    let coord = Coord { x: x + lake_bottom.x, y: y + lake_bottom.y };
    if !house_fits(grid, coord, size) {
        assert(house_candidate(lake_bottom, coord, size));
        return None;
    }
    let door_offset = gen_range_i32(rng, 2, width as i32 - 2) + x;
    let door_y = if y < 0 {
        y + height as i32 - 2
    } else {
        y + 1
    };
    let door = Coord { x: door_offset + lake_bottom.x, y: door_y + lake_bottom.y };
    let ghost g0 = *grid;
    build_house(grid, coord, size, door);
    let ghost g1 = *grid;
    house_path(grid, door, lake_bottom);
    proof {
        assert forall|c: Coord| #[trigger] grid.contains(c) implies grid.at(c) == if on_house_path(door, lake_bottom, c) {
            WorldCell3::Floor
        } else {
            house_cell(coord, size, door, c, g0.at(c))
        } by {
            assert(g1.contains(c));
        }
    }
    Some(House { top_left: coord, size, door_offset, door })
}

/// The lake town so far: the span of the road, and the door of the house furthest along it,
/// which is the player's.
#[derive(Clone, Copy, Debug, PartialEq, Eq, Structural)]
pub struct LakeTown {
    pub road_min: i32,
    pub road_max: i32,
    pub max_dist: i32,
    pub start_coord: Option<Coord>,
    pub your_door: Option<Coord>,
    pub num_houses: u32,
}

impl LakeTown {
    /// A town with no house: an empty road span and no door yet.
    pub fn new() -> (t: LakeTown)
        ensures
            t.road_min == 20,
            t.road_max == -20,
            t.max_dist == 0,
            t.start_coord is None,
            t.your_door is None,
            t.num_houses == 0,
    {
        LakeTown { road_min: 20, road_max: -20, max_dist: 0, start_coord: None, your_door: None, num_houses: 0 }
    }

    /// Records a new house: the road reaches its door, and the house becomes the player's when
    /// its door is further along the road than every earlier door; the player then starts two
    /// cells out from that door, towards the road.
    pub fn add_house(&mut self, house: House, lake_bottom: Coord)
        requires
            old(self).num_houses < u32::MAX,
            -20 <= house.door_offset <= 20,
            -100000 <= house.door.y <= 100000,
        ensures
            final(self).road_min == if house.door_offset < old(self).road_min {
                house.door_offset
            } else {
                old(self).road_min
            },
            final(self).road_max == if house.door_offset > old(self).road_max {
                house.door_offset
            } else {
                old(self).road_max
            },
            ({
                let d = if house.door_offset < 0 { -house.door_offset } else { house.door_offset as int };
                &&& final(self).max_dist == if d > old(self).max_dist { d } else { old(self).max_dist as int }
                &&& final(self).your_door == if d > old(self).max_dist {
                    Some(house.door)
                } else {
                    old(self).your_door
                }
                &&& final(self).start_coord == if d > old(self).max_dist {
                    Some(
                        Coord {
                            x: house.door.x,
                            y: (if house.door.y < lake_bottom.y {
                                house.door.y - 2
                            } else {
                                house.door.y + 2
                            }) as i32,
                        },
                    )
                } else {
                    old(self).start_coord
                }
            }),
            final(self).num_houses == old(self).num_houses + 1,
    {
        if house.door_offset < self.road_min {
            self.road_min = house.door_offset;
        }
        if house.door_offset > self.road_max {
            self.road_max = house.door_offset;
        }
        let d = if house.door_offset < 0 {
            -house.door_offset
        } else {
            house.door_offset
        };
        if d > self.max_dist {
            self.max_dist = d;
            let start = if house.door.y < lake_bottom.y {
                Coord { x: house.door.x, y: house.door.y - 2 }
            } else {
                Coord { x: house.door.x, y: house.door.y + 2 }
            };
            self.start_coord = Some(start);
            self.your_door = Some(house.door);
        }
        self.num_houses = self.num_houses + 1;
    }
}

/// Lays the road: the row of the bottom of the lake from `road_min` to `road_max` cells east of
/// it, both included. The road must lie in the grid.
pub fn build_road(grid: &mut Grid<WorldCell3>, lake_bottom: Coord, road_min: i32, road_max: i32)
    requires
        old(grid).wf(),
        road_min <= road_max ==> old(grid).contains(Coord { x: (lake_bottom.x + road_min) as i32, y: lake_bottom.y })
            && old(grid).contains(Coord { x: (lake_bottom.x + road_max) as i32, y: lake_bottom.y }),
        -100000 <= road_min <= 100000,
        -100000 <= road_max <= 100000,
        -100000 <= lake_bottom.x <= 100000,
    ensures
        final(grid).wf(),
        final(grid).spec_size() == old(grid).spec_size(),
        forall|c: Coord|
            #[trigger] final(grid).contains(c) ==> final(grid).at(c) == if c.y == lake_bottom.y && lake_bottom.x
                + road_min <= c.x <= lake_bottom.x + road_max {
                WorldCell3::Floor
            } else {
                old(grid).at(c)
            },
{
    let ghost g0 = *grid;
    if road_min <= road_max {
        fill_rect(
            grid,
            Coord { x: lake_bottom.x + road_min, y: lake_bottom.y },
            Size { width: (road_max - road_min + 1) as u32, height: 1 },
            WorldCell3::Floor,
        );
    }
    proof {
        assert forall|c: Coord| #[trigger] grid.contains(c) implies grid.at(c) == if c.y == lake_bottom.y
            && lake_bottom.x + road_min <= c.x <= lake_bottom.x + road_max {
            WorldCell3::Floor
        } else {
            g0.at(c)
        } by {
            assert(g0.contains(c));
        }
    }
}

/// Where the things of an inn are: the cells inside it, the shop, the spot for a piece of junk
/// and where its keeper waits.
#[derive(Clone, Debug)]
pub struct InnLayout {
    pub inside: Vec<Coord>,
    pub shop: Coord,
    pub junk_spawn: Coord,
    pub npc: Coord,
}

/// The cell `c` of an inn whose platform has its top-left cell at `pc`: a 10 by 10 platform of
/// floor, a building of 8 by 10 on its east part with walls and a door on its west wall, and a
/// pier two cells wide running 9 cells west from the platform; `other` elsewhere.
pub open spec fn inn_cell(pc: Coord, c: Coord, other: WorldCell3) -> WorldCell3 {
    let btl = Coord { x: (pc.x + 2) as i32, y: pc.y };
    if c == (Coord { x: btl.x, y: (btl.y + 7) as i32 }) {
        WorldCell3::Door
    } else if on_rect_edge(btl, Size { width: 8, height: 10 }, c) {
        WorldCell3::Wall
    } else if in_rect(pc, Size { width: 10, height: 10 }, c) {
        WorldCell3::Floor
    } else if pc.x - 9 <= c.x < pc.x && (c.y == pc.y + 3 || c.y == pc.y + 4) {
        WorldCell3::Floor
    } else {
        other
    }
}

/// The cells inside an inn: the platform without its three western columns, in row-major
/// order.
pub open spec fn inn_inside(pc: Coord) -> Seq<Coord> {
    Seq::new(70, |i: int| Coord { x: (pc.x + 3 + i % 7) as i32, y: (pc.y + i / 7) as i32 })
}

/// Builds an inn whose platform has its top-left cell at `pc`. The inn and its pier must lie
/// in the grid.
pub fn build_inn(grid: &mut Grid<WorldCell3>, pc: Coord) -> (r: InnLayout)
    requires
        old(grid).wf(),
        9 <= pc.x,
        0 <= pc.y,
        pc.x + 10 <= old(grid).spec_size().width,
        pc.y + 10 <= old(grid).spec_size().height,
    ensures
        final(grid).wf(),
        final(grid).spec_size() == old(grid).spec_size(),
        forall|c: Coord| #[trigger] final(grid).contains(c) ==> final(grid).at(c) == inn_cell(pc, c, old(grid).at(c)),
        r.inside@ == inn_inside(pc),
        r.shop == (Coord { x: (pc.x + 7) as i32, y: (pc.y + 7) as i32 }),
        r.junk_spawn == (Coord { x: (pc.x + 1) as i32, y: (pc.y + 5) as i32 }),
        r.npc == (Coord { x: (pc.x - 8) as i32, y: (pc.y + 4) as i32 }),
{
    let ghost g0 = *grid;
    fill_rect(grid, pc, Size { width: 10, height: 10 }, WorldCell3::Floor);
    let mut inside: Vec<Coord> = Vec::new();
    let mut y: i32 = 0;
    while y < 10
        invariant
            0 <= pc.y,
            pc.y + 10 <= i32::MAX,
            pc.x + 10 <= i32::MAX,
            0 <= y <= 10,
            inside@ == inn_inside(pc).take(7 * y),
        decreases 10 - y,
    {
        let mut x: i32 = 3;
        while x < 10
            invariant
                0 <= pc.y,
                pc.y + 10 <= i32::MAX,
                pc.x + 10 <= i32::MAX,
                0 <= y < 10,
                3 <= x <= 10,
                inside@ == inn_inside(pc).take(7 * y + x - 3),
            decreases 10 - x,
        {
            inside.push(Coord { x: pc.x + x, y: pc.y + y });
            proof {
                let i = 7 * y + x - 3;
                assert(i % 7 == x - 3 && i / 7 == y) by (nonlinear_arith)
                    requires
                        i == 7 * y + x - 3,
                        3 <= x < 10,
                        0 <= y,
                ;
                assert(inside@ =~= inn_inside(pc).take(i + 1));
            }
            x = x + 1;
        }
        y = y + 1;
    }
    let ghost g1 = *grid;
    let btl = Coord { x: pc.x + 2, y: pc.y };
    set_rect_edge(grid, btl, Size { width: 8, height: 10 }, WorldCell3::Wall);
    let ghost g2 = *grid;
    fill_rect(grid, Coord { x: pc.x - 9, y: pc.y + 3 }, Size { width: 9, height: 2 }, WorldCell3::Floor);
    let ghost g3 = *grid;
    grid.set(Coord { x: btl.x, y: btl.y + 7 }, WorldCell3::Door);
    proof {
        assert forall|c: Coord| #[trigger] grid.contains(c) implies grid.at(c) == inn_cell(pc, c, g0.at(c)) by {
            assert(g1.contains(c));
            assert(g2.contains(c));
            assert(g3.contains(c));
            if c != (Coord { x: btl.x, y: (btl.y + 7) as i32 }) {
                assert(grid.at(c) == g3.at(c));
            }
        }
    }
    InnLayout {
        inside,
        shop: Coord { x: pc.x + 7, y: pc.y + 7 },
        junk_spawn: Coord { x: btl.x - 1, y: btl.y + 5 },
        npc: Coord { x: pc.x - 8, y: pc.y + 4 },
    }
}

/// One of the eight neighbours of `c` is river water or floor: `c` is on the beach.
pub open spec fn is_beach(g: Grid<WorldCell3>, c: Coord) -> bool {
    exists|n: Coord|
        #[trigger] is_neighbour(c, n) && (g.at(n) == WorldCell3::Water(WaterType::River) || g.at(n) == WorldCell3::Floor)
}

/// All eight neighbours of `c` lie in the grid.
pub open spec fn neighbours_inside(g: Grid<WorldCell3>, c: Coord) -> bool {
    &&& 1 <= c.x
    &&& 1 <= c.y
    &&& c.x + 1 < g.spec_size().width
    &&& c.y + 1 < g.spec_size().height
}

fn on_beach(grid: &Grid<WorldCell3>, coord: Coord) -> (b: bool)
    requires
        grid.wf(),
        neighbours_inside(*grid, coord),
    ensures
        b == is_beach(*grid, coord),
{
    let directions = Direction::all();
    let mut k: usize = 0;
    while k < 8
        invariant
            grid.wf(),
            neighbours_inside(*grid, coord),
            directions@ == all_directions(),
            k <= 8,
            forall|i: int|
                0 <= i < k ==> {
                    let n = #[trigger] coord_plus(coord, direction_delta(all_directions()[i]));
                    !(grid.at(n) == WorldCell3::Water(WaterType::River) || grid.at(n) == WorldCell3::Floor)
                },
        decreases 8 - k,
    {
        let n = coord.plus(directions[k].coord());
        let cell = *grid.get_checked(n);
        if cell == WorldCell3::Water(WaterType::River) || cell == WorldCell3::Floor {
            proof {
                lemma_neighbours(coord, n);
                assert(is_neighbour(coord, n));
            }
            return true;
        }
        k = k + 1;
    }
    proof {
        if is_beach(*grid, coord) {
            let n = choose|n: Coord|
                #[trigger] is_neighbour(coord, n) && (grid.at(n) == WorldCell3::Water(WaterType::River) || grid.at(n)
                    == WorldCell3::Floor);
            lemma_neighbours(coord, n);
        }
    }
    false
}

/// The cells of an island on its beach, in order.
pub open spec fn beach_of(g: Grid<WorldCell3>, island: Seq<Coord>) -> Seq<Coord> {
    island.filter(|c: Coord| is_beach(g, c))
}

/// The cells of an island next to river water or floor, where its beach is. The neighbours of
/// every cell must lie in the grid.
pub fn beach_coords(grid: &Grid<WorldCell3>, island: &Vec<Coord>) -> (r: Vec<Coord>)
    requires
        grid.wf(),
        forall|k: int| 0 <= k < island@.len() ==> neighbours_inside(*grid, #[trigger] island@[k]),
    ensures
        r@ == beach_of(*grid, island@),
{
    let mut r: Vec<Coord> = Vec::new();
    let mut k: usize = 0;
    while k < island.len()
        invariant
            grid.wf(),
            forall|j: int| 0 <= j < island@.len() ==> neighbours_inside(*grid, #[trigger] island@[j]),
            k <= island@.len(),
            r@ == beach_of(*grid, island@.take(k as int)),
        decreases island@.len() - k,
    {
        let c = island[k];
        assert(neighbours_inside(*grid, island@[k as int]));
        assert(island@.take(k + 1) =~= island@.take(k as int).push(c));
        proof {
            island@.take(k as int).lemma_filter_push(c, |c: Coord| is_beach(*grid, c));
        }
        if on_beach(grid, c) {
            r.push(c);
        }
        k = k + 1;
    }
    assert(island@.take(island@.len() as int) =~= island@);
    r
}

/// The river water on the listed cells becomes the city gate. Every cell must lie in the grid.
pub fn mark_gate(grid: &mut Grid<WorldCell3>, gate: &Vec<Coord>)
    requires
        old(grid).wf(),
        forall|k: int| 0 <= k < gate@.len() ==> old(grid).contains(#[trigger] gate@[k]),
    ensures
        final(grid).wf(),
        final(grid).spec_size() == old(grid).spec_size(),
        forall|c: Coord|
            #[trigger] final(grid).contains(c) ==> final(grid).at(c) == if gate@.contains(c) && old(grid).at(c)
                == WorldCell3::Water(WaterType::River) {
                WorldCell3::Gate
            } else {
                old(grid).at(c)
            },
{
    let ghost g0 = *grid;
    let mut k: usize = 0;
    while k < gate.len()
        invariant
            grid.wf(),
            grid.spec_size() == g0.spec_size(),
            forall|j: int| 0 <= j < gate@.len() ==> g0.contains(#[trigger] gate@[j]),
            k <= gate@.len(),
            forall|c: Coord|
                #[trigger] grid.contains(c) ==> grid.at(c) == if gate@.take(k as int).contains(c) && g0.at(c)
                    == WorldCell3::Water(WaterType::River) {
                    WorldCell3::Gate
                } else {
                    g0.at(c)
                },
        decreases gate@.len() - k,
    {
        let c = gate[k];
        let ghost before = *grid;
        assert(g0.contains(gate@[k as int]));
        if *grid.get_checked(c) == WorldCell3::Water(WaterType::River) {
            grid.set(c, WorldCell3::Gate);
        }
        proof {
            assert forall|d: Coord| #[trigger] grid.contains(d) implies grid.at(d) == if gate@.take(k + 1).contains(
                d,
            ) && g0.at(d) == WorldCell3::Water(WaterType::River) {
                WorldCell3::Gate
            } else {
                g0.at(d)
            } by {
                let t0 = gate@.take(k as int);
                let t1 = gate@.take(k + 1);
                assert(t1 =~= t0.push(c));
                assert(before.contains(d));
                if d != c {
                    assert(grid.at(d) == before.at(d));
                    if t0.contains(d) {
                        let j = choose|j: int| 0 <= j < t0.len() && t0[j] == d;
                        assert(t1[j] == d);
                    }
                    if t1.contains(d) {
                        let j = choose|j: int| 0 <= j < t1.len() && t1[j] == d;
                        assert(t0[j] == d);
                    }
                } else {
                    assert(t1[k as int] == c);
                }
            }
        }
        k = k + 1;
    }
    assert(gate@.take(gate@.len() as int) =~= gate@);
}

/// The blocks of the city's 4 by 4 grid of buildings without its corners, in row-major order.
pub open spec fn city_block_grid() -> Seq<Coord> {
    seq![
        Coord { x: 1, y: 0 },
        Coord { x: 2, y: 0 },
        Coord { x: 0, y: 1 },
        Coord { x: 1, y: 1 },
        Coord { x: 2, y: 1 },
        Coord { x: 3, y: 1 },
        Coord { x: 0, y: 2 },
        Coord { x: 1, y: 2 },
        Coord { x: 2, y: 2 },
        Coord { x: 3, y: 2 },
        Coord { x: 1, y: 3 },
        Coord { x: 2, y: 3 },
    ]
}

/// The city's blocks shuffled by the generator: two are left empty, the next holds the inn,
/// and the other nine are returned first.
pub fn city_blocks(rng: &mut Isaac64Rng) -> (r: (Vec<Coord>, Coord))
    ensures
        exists|s: Seq<Coord>|
            #[trigger] s.to_multiset() == city_block_grid().to_multiset() && s.len() == 12 && r.0@ == s.take(9)
                && r.1 == s[9],
{
    let mut blocks = vec![
        Coord { x: 1, y: 0 },
        Coord { x: 2, y: 0 },
        Coord { x: 0, y: 1 },
        Coord { x: 1, y: 1 },
        Coord { x: 2, y: 1 },
        Coord { x: 3, y: 1 },
        Coord { x: 0, y: 2 },
        Coord { x: 1, y: 2 },
        Coord { x: 2, y: 2 },
        Coord { x: 3, y: 2 },
        Coord { x: 1, y: 3 },
        Coord { x: 2, y: 3 },
    ];
    assert(blocks@ =~= city_block_grid());
    shuffle(rng, &mut blocks);
    let ghost s = blocks@;
    let _ = blocks.pop();
    let _ = blocks.pop();
    let inn = match blocks.pop() {
        Some(c) => c,
        None => Coord { x: 0, y: 0 },
    };
    assert(blocks@ =~= s.take(9));
    (blocks, inn)
}

/// A building of the city: its top-left cell, its side, and the doors cut in its outer wall.
#[derive(Clone, Debug)]
pub struct CityBuilding {
    pub coord: Coord,
    pub side: u32,
    pub outer_doors: Vec<Coord>,
}

/// The doors between the four rooms of a building of side `s`, relative to its top-left cell.
pub open spec fn inner_doors(s: int) -> Seq<Coord> {
    seq![
        Coord { x: (s / 4) as i32, y: (s / 2) as i32 },
        Coord { x: (3 * s / 4) as i32, y: (s / 2) as i32 },
        Coord { x: (s / 2) as i32, y: (s / 4) as i32 },
        Coord { x: (s / 2) as i32, y: (3 * s / 4) as i32 },
    ]
}

/// Where doors may be cut in the outer wall of a building of side `s`, relative to its top-left
/// cell: two on each side.
pub open spec fn outer_door_candidates(s: int) -> Seq<Coord> {
    seq![
        Coord { x: (s / 4) as i32, y: 0 },
        Coord { x: (s / 4) as i32, y: (s - 1) as i32 },
        Coord { x: (3 * s / 4) as i32, y: 0 },
        Coord { x: (3 * s / 4) as i32, y: (s - 1) as i32 },
        Coord { x: 0, y: (s / 4) as i32 },
        Coord { x: 0, y: (3 * s / 4) as i32 },
        Coord { x: (s - 1) as i32, y: (s / 4) as i32 },
        Coord { x: (s - 1) as i32, y: (3 * s / 4) as i32 },
    ]
}

/// The cell `c` of a building of side `s` at `coord` whose outer wall has the doors `outer`:
/// four rooms of floor inside walls on its border and along its two middle lines, doors
/// between the rooms and in the outer wall; `other` elsewhere.
pub open spec fn city_building_cell(coord: Coord, s: u32, outer: Seq<Coord>, c: Coord, other: WorldCell3) -> WorldCell3 {
    let rel = coord_minus(c, coord);
    let sz = Size { width: s, height: s };
    if outer.contains(c) {
        WorldCell3::Door
    } else if in_rect(coord, sz, c) && inner_doors(s as int).contains(rel) {
        WorldCell3::Door
    } else if in_rect(coord, sz, c) && (rel.x == s / 2 || rel.y == s / 2) {
        WorldCell3::Wall
    } else if on_rect_edge(coord, sz, c) {
        WorldCell3::Wall
    } else if in_rect(coord, sz, c) {
        WorldCell3::Floor
    } else {
        other
    }
}

/// The city fits in the grid with its top-left cell at `city`: four blocks of 25 cells each
/// way.
pub open spec fn city_fits(g: Size, city: Coord) -> bool {
    rect_inside(g, city, Size { width: 100, height: 100 })
}

fn set_rel<T: Copy>(grid: &mut Grid<T>, coord: Coord, rel: Coord, v: T)
    requires
        old(grid).wf(),
        old(grid).contains(coord_plus(coord, rel)),
        crate::geometry::can_add(coord, rel),
    ensures
        final(grid).wf(),
        final(grid).spec_size() == old(grid).spec_size(),
        forall|c: Coord|
            #[trigger] final(grid).contains(c) ==> final(grid).at(c) == if c == coord_plus(coord, rel) {
                v
            } else {
                old(grid).at(c)
            },
{
    grid.set(Coord { x: coord.x + rel.x, y: coord.y + rel.y }, v);
}

/// Builds the building of the city block `block`: a random padding of 3 to 5 cells inside the
/// block's 25 by 25 cells, four rooms of floor with walls on the border and along the middle
/// lines, a door between each pair of neighbouring rooms, and one to three doors in the outer
/// wall at shuffled candidate places.
pub fn build_city_building(
    grid: &mut Grid<WorldCell3>,
    block: Coord,
    city: Coord,
    rng: &mut Isaac64Rng,
) -> (b: CityBuilding)
    requires
        old(grid).wf(),
        city_fits(old(grid).spec_size(), city),
        0 <= block.x < 4,
        0 <= block.y < 4,
    ensures
        final(grid).wf(),
        final(grid).spec_size() == old(grid).spec_size(),
        ({
            let p = (25 - b.side) / 2;
            &&& b.side == 19 || b.side == 17 || b.side == 15
            &&& b.coord == (Coord { x: (block.x * 25 + p + city.x) as i32, y: (block.y * 25 + p + city.y) as i32 })
        }),
        1 <= b.outer_doors@.len() <= 3,
        exists|s: Seq<Coord>|
            #[trigger] s.to_multiset() == outer_door_candidates(b.side as int).to_multiset() && s.len() == 8
                && forall|i: int|
                0 <= i < b.outer_doors@.len() ==> b.outer_doors@[i] == coord_plus(s[7 - i], b.coord),
        forall|c: Coord|
            #[trigger] final(grid).contains(c) ==> final(grid).at(c) == city_building_cell(
                b.coord,
                b.side,
                b.outer_doors@,
                c,
                old(grid).at(c),
            ),
        ({
            let s = b.side as int;
            &&& final(grid).at(coord_plus(b.coord, Coord { x: (s / 4) as i32, y: (s / 2) as i32 })) == WorldCell3::Door
            &&& final(grid).at(coord_plus(b.coord, Coord { x: (3 * s / 4) as i32, y: (s / 2) as i32 }))
                == WorldCell3::Door
            &&& final(grid).at(coord_plus(b.coord, Coord { x: (s / 2) as i32, y: (s / 4) as i32 })) == WorldCell3::Door
            &&& final(grid).at(coord_plus(b.coord, Coord { x: (s / 2) as i32, y: (3 * s / 4) as i32 }))
                == WorldCell3::Door
        }),
{
    let padding = gen_range_i32(rng, 3, 6);
    let coord = Coord { x: block.x * 25 + padding + city.x, y: block.y * 25 + padding + city.y };
    let side: u32 = (25 - 2 * padding) as u32;
    let sz = Size { width: side, height: side };
    let s = side as i32;
    let ghost g0 = *grid;
    fill_rect(grid, coord, sz, WorldCell3::Floor);
    let ghost g1 = *grid;
    set_rect_edge(grid, coord, sz, WorldCell3::Wall);
    let ghost g2 = *grid;
    fill_rect(grid, Coord { x: coord.x + s / 2, y: coord.y }, Size { width: 1, height: side }, WorldCell3::Wall);
    let ghost g3 = *grid;
    fill_rect(grid, Coord { x: coord.x, y: coord.y + s / 2 }, Size { width: side, height: 1 }, WorldCell3::Wall);
    let ghost g4 = *grid;
    set_rel(grid, coord, Coord { x: s / 4, y: s / 2 }, WorldCell3::Door);
    let ghost h1 = *grid;
    set_rel(grid, coord, Coord { x: 3 * s / 4, y: s / 2 }, WorldCell3::Door);
    let ghost h2 = *grid;
    set_rel(grid, coord, Coord { x: s / 2, y: s / 4 }, WorldCell3::Door);
    let ghost h3 = *grid;
    set_rel(grid, coord, Coord { x: s / 2, y: 3 * s / 4 }, WorldCell3::Door);
    let ghost g5 = *grid;
    proof {
        let doors = inner_doors(side as int);
        assert(doors[0] == Coord { x: (s / 4) as i32, y: (s / 2) as i32 });
        assert(doors[1] == Coord { x: (3 * s / 4) as i32, y: (s / 2) as i32 });
        assert(doors[2] == Coord { x: (s / 2) as i32, y: (s / 4) as i32 });
        assert(doors[3] == Coord { x: (s / 2) as i32, y: (3 * s / 4) as i32 });
        assert forall|c: Coord| #[trigger] g5.contains(c) implies g5.at(c) == city_building_cell(
            coord,
            side,
            Seq::empty(),
            c,
            g0.at(c),
        ) by {
            assert(g1.contains(c) && g2.contains(c) && g3.contains(c) && g4.contains(c));
            assert(h1.contains(c) && h2.contains(c) && h3.contains(c));
            let rel = coord_minus(c, coord);
            let is_door = c == coord_plus(coord, doors[0]) || c == coord_plus(coord, doors[1]) || c
                == coord_plus(coord, doors[2]) || c == coord_plus(coord, doors[3]);
            if in_rect(coord, sz, c) && doors.contains(rel) {
                let j = choose|j: int| 0 <= j < 4 && doors[j] == rel;
                assert(c == coord_plus(coord, doors[j]));
                assert(is_door);
            }
            if is_door {
                assert(in_rect(coord, sz, c));
                if c == coord_plus(coord, doors[0]) {
                    assert(doors[0] == rel);
                } else if c == coord_plus(coord, doors[1]) {
                    assert(doors[1] == rel);
                } else if c == coord_plus(coord, doors[2]) {
                    assert(doors[2] == rel);
                } else {
                    assert(doors[3] == rel);
                }
                assert(doors.contains(rel));
            }
            if !is_door {
                assert(g5.at(c) == g4.at(c));
            }
        }
    }
    let mut candidates = vec![
        Coord { x: s / 4, y: 0 },
        Coord { x: s / 4, y: s - 1 },
        Coord { x: 3 * s / 4, y: 0 },
        Coord { x: 3 * s / 4, y: s - 1 },
        Coord { x: 0, y: s / 4 },
        Coord { x: 0, y: 3 * s / 4 },
        Coord { x: s - 1, y: s / 4 },
        Coord { x: s - 1, y: 3 * s / 4 },
    ];
    assert(candidates@ =~= outer_door_candidates(s as int));
    shuffle(rng, &mut candidates);
    let ghost shuffled = candidates@;
    let num_doors = gen_range_u32(rng, 1, 4);
    let mut outer_doors: Vec<Coord> = Vec::new();
    let mut i: u32 = 0;
    while i < num_doors
        invariant
            grid.wf(),
            grid.spec_size() == g0.spec_size(),
            city_fits(g0.spec_size(), city),
            0 <= block.x < 4,
            0 <= block.y < 4,
            3 <= padding < 6,
            coord == (Coord { x: (block.x * 25 + padding + city.x) as i32, y: (block.y * 25 + padding + city.y) as i32 }),
            s == 25 - 2 * padding,
            side == s,
            1 <= num_doors <= 3,
            i <= num_doors,
            shuffled.len() == 8,
            shuffled.to_multiset() == outer_door_candidates(s as int).to_multiset(),
            candidates@ == shuffled.take(8 - i),
            outer_doors@.len() == i,
            forall|j: int| 0 <= j < i ==> outer_doors@[j] == coord_plus(shuffled[7 - j], coord),
            forall|c: Coord|
                #[trigger] grid.contains(c) ==> grid.at(c) == city_building_cell(coord, side, outer_doors@, c, g0.at(c)),
        decreases num_doors - i,
    {
        let ghost before = *grid;
        let rel = match candidates.pop() {
            Some(c) => c,
            None => Coord { x: 0, y: 0 },
        };
        proof {
            assert(rel == shuffled[7 - i]);
            assert(shuffled.contains(rel));
            vstd::seq_lib::to_multiset_contains(shuffled, rel);
            vstd::seq_lib::to_multiset_contains(outer_door_candidates(s as int), rel);
            assert(outer_door_candidates(s as int).contains(rel));
            assert(candidates@ =~= shuffled.take(8 - (i + 1)));
        }
        let door = Coord { x: coord.x + rel.x, y: coord.y + rel.y };
        let ghost prev = outer_doors@;
        assert forall|c: Coord| #[trigger] before.contains(c) implies before.at(c) == city_building_cell(
            coord,
            side,
            prev,
            c,
            g0.at(c),
        ) by {}
        grid.set(door, WorldCell3::Door);
        outer_doors.push(door);
        proof {
            assert forall|c: Coord| #[trigger] grid.contains(c) implies grid.at(c) == city_building_cell(
                coord,
                side,
                outer_doors@,
                c,
                g0.at(c),
            ) by {
                assert(before.contains(c));
                assert(outer_doors@ == prev.push(door));
                if c != door {
                    assert(grid.at(c) == before.at(c));
                    if outer_doors@.contains(c) {
                        let j = choose|j: int| 0 <= j < outer_doors@.len() && outer_doors@[j] == c;
                        assert(prev[j] == c);
                    }
                    if prev.contains(c) {
                        let j = choose|j: int| 0 <= j < prev.len() && prev[j] == c;
                        assert(outer_doors@[j] == c);
                    }
                } else {
                    assert(outer_doors@[i as int] == door);
                    assert(outer_doors@.contains(door));
                    assert(grid.at(door) == WorldCell3::Door);
                }
            }
        }
        i = i + 1;
    }
    proof {
        let si = side as int;
        let doors = inner_doors(si);
        assert forall|j: int| 0 <= j < 4 implies #[trigger] grid.at(coord_plus(coord, doors[j])) == WorldCell3::Door by {
            let r = doors[j];
            let c = coord_plus(coord, r);
            assert(0 <= r.x < si && 0 <= r.y < si);
            assert(grid.contains(c));
            assert(in_rect(coord, sz, c));
            assert(coord_minus(c, coord) == r);
            assert(doors.contains(r));
        }
        assert(grid.at(coord_plus(coord, doors[0])) == WorldCell3::Door);
        assert(grid.at(coord_plus(coord, doors[1])) == WorldCell3::Door);
        assert(grid.at(coord_plus(coord, doors[2])) == WorldCell3::Door);
        assert(grid.at(coord_plus(coord, doors[3])) == WorldCell3::Door);
    }
    CityBuilding { coord, side, outer_doors }
}

/// The cell `r` (relative to its top-left corner) is a floor cell of a room of a city building
/// of side `s`: the room to the east of the middle wall when `east`, to the south of it when
/// `south`.
pub open spec fn in_building_room(s: int, r: Coord, east: bool, south: bool) -> bool {
    &&& 1 <= r.x < s - 1
    &&& 1 <= r.y < s - 1
    &&& r.x != s / 2
    &&& r.y != s / 2
    &&& (r.x > s / 2) == east
    &&& (r.y > s / 2) == south
}

/// The door `d` of a building of side `s` joins the room (`e1`, `s1`) to the room (`e2`, `s2`):
/// the two cells on either side of it, across or along the wall, lie one in each.
pub open spec fn door_joins(s: int, d: Coord, e1: bool, s1: bool, e2: bool, s2: bool) -> bool {
    ||| in_building_room(s, Coord { x: (d.x - 1) as i32, y: d.y }, e1, s1) && in_building_room(
        s,
        Coord { x: (d.x + 1) as i32, y: d.y },
        e2,
        s2,
    )
    ||| in_building_room(s, Coord { x: d.x, y: (d.y - 1) as i32 }, e1, s1) && in_building_room(
        s,
        Coord { x: d.x, y: (d.y + 1) as i32 },
        e2,
        s2,
    )
}

/// The inner doors of a city building join its four rooms into one: the north-west room to the
/// north-east and to the south-west ones, and the south-east room to the north-east and to the
/// south-west ones, so every room is reached from every other through the doors.
pub proof fn law_city_building_rooms_joined(s: int)
    requires
        s == 15 || s == 17 || s == 19,
    ensures
        exists|i: int| 0 <= i < 4 && #[trigger] door_joins(s, inner_doors(s)[i], false, false, true, false),
        exists|i: int| 0 <= i < 4 && #[trigger] door_joins(s, inner_doors(s)[i], false, false, false, true),
        exists|i: int| 0 <= i < 4 && #[trigger] door_joins(s, inner_doors(s)[i], true, false, true, true),
        exists|i: int| 0 <= i < 4 && #[trigger] door_joins(s, inner_doors(s)[i], false, true, true, true),
{
    assert(door_joins(s, inner_doors(s)[2], false, false, true, false));
    assert(door_joins(s, inner_doors(s)[0], false, false, false, true));
    assert(door_joins(s, inner_doors(s)[1], true, false, true, true));
    assert(door_joins(s, inner_doors(s)[3], false, true, true, true));
}

/// Where the stairs of a building of side `s` at `coord` may go: the middle of each of its four
/// rooms.
pub open spec fn stairs_candidates_of(coord: Coord, s: int) -> Seq<Coord> {
    seq![
        Coord { x: (coord.x + s / 4) as i32, y: (coord.y + s / 4) as i32 },
        Coord { x: (coord.x + 3 * s / 4) as i32, y: (coord.y + s / 4) as i32 },
        Coord { x: (coord.x + s / 4) as i32, y: (coord.y + 3 * s / 4) as i32 },
        Coord { x: (coord.x + 3 * s / 4) as i32, y: (coord.y + 3 * s / 4) as i32 },
    ]
}

/// The middle of one of the building's four rooms, picked by the generator, for its stairs.
pub fn building_stairs(coord: Coord, side: u32, rng: &mut Isaac64Rng) -> (r: Coord)
    requires
        side <= 100,
        -1000000 <= coord.x <= 1000000,
        -1000000 <= coord.y <= 1000000,
    ensures
        stairs_candidates_of(coord, side as int).contains(r),
{
    let s = side as i32;
    let candidates = vec![
        Coord { x: coord.x + s / 4, y: coord.y + s / 4 },
        Coord { x: coord.x + 3 * s / 4, y: coord.y + s / 4 },
        Coord { x: coord.x + s / 4, y: coord.y + 3 * s / 4 },
        Coord { x: coord.x + 3 * s / 4, y: coord.y + 3 * s / 4 },
    ];
    assert(candidates@ =~= stairs_candidates_of(coord, side as int));
    match choose_one(rng, &candidates) {
        Some(c) => c,
        None => coord,
    }
}

/// The cells of the rectangle at `tl` of size `s`, in row-major order.
pub open spec fn rect_row_major(tl: Coord, s: Size) -> Seq<Coord> {
    Seq::new(
        (s.width * s.height) as nat,
        |i: int| Coord { x: (tl.x + i % (s.width as int)) as i32, y: (tl.y + i / (s.width as int)) as i32 },
    )
}

/// The cell is floor and not the cell of the stairs.
pub open spec fn free_floor(g: Grid<WorldCell3>, stairs: Coord) -> spec_fn(Coord) -> bool {
    |c: Coord| g.at(c) == WorldCell3::Floor && c != stairs
}

/// The floor cells of a building, in row-major order, without the cell of its stairs.
pub open spec fn building_floor_of(g: Grid<WorldCell3>, coord: Coord, s: u32, stairs: Coord) -> Seq<Coord> {
    rect_row_major(coord, Size { width: s, height: s }).filter(free_floor(g, stairs))
}

/// The floor cells of a building other than its stairs' cell, where things may be found. The
/// building must lie in the grid.
pub fn building_floor_coords(grid: &Grid<WorldCell3>, coord: Coord, side: u32, stairs: Coord) -> (r: Vec<Coord>)
    requires
        grid.wf(),
        1 <= side <= 100,
        rect_inside(grid.spec_size(), coord, Size { width: side, height: side }),
    ensures
        r@ == building_floor_of(*grid, coord, side, stairs),
{
    let ghost all = rect_row_major(coord, Size { width: side, height: side });
    let ghost f = free_floor(*grid, stairs);
    let mut r: Vec<Coord> = Vec::new();
    let mut y: u32 = 0;
    while y < side
        invariant
            grid.wf(),
            1 <= side <= 100,
            rect_inside(grid.spec_size(), coord, Size { width: side, height: side }),
            all == rect_row_major(coord, Size { width: side, height: side }),
            f == free_floor(*grid, stairs),
            y <= side,
            r@ == all.take((side * y) as int).filter(f),
        decreases side - y,
    {
        let mut x: u32 = 0;
        while x < side
            invariant
                grid.wf(),
                1 <= side <= 100,
                rect_inside(grid.spec_size(), coord, Size { width: side, height: side }),
                all == rect_row_major(coord, Size { width: side, height: side }),
                f == free_floor(*grid, stairs),
                y < side,
                x <= side,
                r@ == all.take((side * y + x) as int).filter(f),
            decreases side - x,
        {
            let c = Coord { x: coord.x + x as i32, y: coord.y + y as i32 };
            proof {
                let i = side * y + x;
                assert(i < side * side) by (nonlinear_arith)
                    requires
                        x < side,
                        y < side,
                        i == side * y + x,
                ;
                assert(i % (side as int) == x && i / (side as int) == y) by (nonlinear_arith)
                    requires
                        i == side * y + x,
                        x < side,
                        0 <= y,
                ;
                assert(all[i as int] == c);
                assert(all.take(i + 1) =~= all.take(i as int).push(c));
                all.take(i as int).lemma_filter_push(c, f);
            }
            if *grid.get_checked(c) == WorldCell3::Floor && c != stairs {
                r.push(c);
            }
            x = x + 1;
        }
        assert(side * y + side == side * (y + 1)) by (nonlinear_arith);
        y = y + 1;
    }
    assert(all.take((side * side) as int) =~= all);
    r
}

} // verus!
