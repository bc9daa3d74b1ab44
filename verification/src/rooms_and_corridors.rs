//! Levels made of rectangular rooms joined by L-shaped corridors.
use crate::geometry::{
    axis_coord, axis_get, can_sub, coord_minus, magnitude2_spec, other_axis, size_is_on_edge,
    Axis, Coord, Size,
};
use crate::grid::Grid;
use crate::random::{
    choose_multiple, choose_one, gen_bool, gen_range_u32, selection_indices,
};
use rand_isaac::Isaac64Rng;
use vstd::prelude::*;

verus! {

/// A cell of the map used while placing rooms.
#[derive(Clone, Copy, Debug, PartialEq, Eq, Structural)]
pub enum FloorOrWall {
    Floor,
    Wall,
}

/// An axis-aligned rectangle.
#[derive(Clone, Copy, Debug, PartialEq, Eq, Structural)]
pub struct Rect {
    pub top_left: Coord,
    pub size: Size,
}

/// A room: the border of its rectangle is the wall around it and the inside is its floor.
#[derive(Clone, Copy, Debug, PartialEq, Eq, Structural)]
pub struct Room {
    pub rect: Rect,
}

/// `c` is a cell of the rectangle.
pub open spec fn rect_contains(r: Rect, c: Coord) -> bool {
    &&& r.top_left.x <= c.x < r.top_left.x + r.size.width
    &&& r.top_left.y <= c.y < r.top_left.y + r.size.height
}

/// `c` is a border cell of the rectangle.
pub open spec fn rect_is_edge(r: Rect, c: Coord) -> bool {
    &&& rect_contains(r, c)
    &&& (c.x == r.top_left.x || c.x == r.top_left.x + r.size.width - 1 || c.y == r.top_left.y
        || c.y == r.top_left.y + r.size.height - 1)
}

/// `c` is a cell of the rectangle that is not on its border.
pub open spec fn rect_interior(r: Rect, c: Coord) -> bool {
    rect_contains(r, c) && !rect_is_edge(r, c)
}

/// The centre cell of the rectangle (rounding towards the top-left).
pub open spec fn rect_centre(r: Rect) -> Coord {
    Coord {
        x: (r.top_left.x + r.size.width / 2) as i32,
        y: (r.top_left.y + r.size.height / 2) as i32,
    }
}

/// The rectangle lies inside an area of size `bounds`, clear of its last row and column, and
/// is at least 3 cells wide and high.
pub open spec fn rect_fits(r: Rect, bounds: Size) -> bool {
    &&& 0 <= r.top_left.x
    &&& 0 <= r.top_left.y
    &&& r.top_left.x + r.size.width < bounds.width
    &&& r.top_left.y + r.size.height < bounds.height
    &&& r.size.width >= 3
    &&& r.size.height >= 3
    &&& bounds.width <= i32::MAX
    &&& bounds.height <= i32::MAX
}

/// `c` is a cell of an area of size `s` that is not on the area's border.
pub open spec fn inner(s: Size, c: Coord) -> bool {
    1 <= c.x < s.width - 1 && 1 <= c.y < s.height - 1
}

pub open spec fn is_floor(map: Grid<FloorOrWall>, c: Coord) -> bool {
    map.at(c) == FloorOrWall::Floor
}

/// One of the four cells sharing a side with `c` is a floor cell.
pub open spec fn has_floor_neighbour_spec(map: Grid<FloorOrWall>, c: Coord) -> bool {
    ||| is_floor(map, Coord { x: c.x, y: (c.y - 1) as i32 })
    ||| is_floor(map, Coord { x: (c.x + 1) as i32, y: c.y })
    ||| is_floor(map, Coord { x: c.x, y: (c.y + 1) as i32 })
    ||| is_floor(map, Coord { x: (c.x - 1) as i32, y: c.y })
}

/// `c` has floor on both sides along `axis` and wall on both sides along the other axis.
pub open spec fn in_corridor_axis(map: Grid<FloorOrWall>, c: Coord, axis: Axis) -> bool {
    let a = axis_get(c, axis);
    let o = axis_get(c, other_axis(axis));
    &&& map.at(axis_coord(axis, a + 1, o)) == FloorOrWall::Floor
    &&& map.at(axis_coord(axis, a - 1, o)) == FloorOrWall::Floor
    &&& map.at(axis_coord(axis, a, o + 1)) == FloorOrWall::Wall
    &&& map.at(axis_coord(axis, a, o - 1)) == FloorOrWall::Wall
}

/// `c` is suitable for a door: it lies in a corridor along some axis.
pub open spec fn in_corridor(map: Grid<FloorOrWall>, c: Coord) -> bool {
    in_corridor_axis(map, c, Axis::X) || in_corridor_axis(map, c, Axis::Y)
}

/// One step from `from` towards `to` along a line.
pub open spec fn step_towards(from: int, to: int, k: int) -> int {
    if to > from {
        from + k
    } else {
        from - k
    }
}

pub open spec fn abs_int(v: int) -> int {
    if v < 0 {
        -v
    } else {
        v
    }
}

/// The cells of the L-shaped path from `start` to `end` that moves along `axis` first. It
/// leaves out `start` (unless the first leg is empty) and always leaves out `end`.
pub open spec fn l_path(start: Coord, end: Coord, axis: Axis) -> Seq<Coord> {
    let s1 = axis_get(start, axis);
    let e1 = axis_get(end, axis);
    let s2 = axis_get(start, other_axis(axis));
    let e2 = axis_get(end, other_axis(axis));
    let leg1_len = if e1 == s1 {
        0
    } else {
        abs_int(e1 - s1) - 1
    };
    let leg1 = Seq::new(leg1_len as nat, |k: int| axis_coord(axis, step_towards(s1, e1, k + 1), s2));
    let leg2 = Seq::new(abs_int(e2 - s2) as nat, |j: int| axis_coord(axis, e1, step_towards(s2, e2, j)));
    leg1 + leg2
}

/// `r` is the prefix of the path `p` that stops at the first cell next to a floor cell (that
/// cell included), or all of `p` when no cell of it is next to a floor cell.
pub open spec fn floor_truncation(map: Grid<FloorOrWall>, p: Seq<Coord>, r: Seq<Coord>) -> bool {
    &&& r.len() <= p.len()
    &&& r == p.take(r.len() as int)
    &&& forall|i: int| 0 <= i < r.len() - 1 ==> !has_floor_neighbour_spec(map, #[trigger] r[i])
    &&& (r.len() == p.len() || (r.len() > 0 && has_floor_neighbour_spec(map, r[r.len() - 1])))
}

/// Every cell of the L-shaped path between two inner cells is an inner cell.
proof fn lemma_l_path_inner(s: Size, start: Coord, end: Coord, axis: Axis)
    requires
        inner(s, start),
        inner(s, end),
    ensures
        forall|i: int| 0 <= i < l_path(start, end, axis).len() ==> inner(s, #[trigger] l_path(start, end, axis)[i]),
{
}

impl Rect {
    /// A random rectangle of size between `min_size` (inclusive) and `max_size` (exclusive)
    /// placed inside `bounds`, clear of its last row and column.
    pub fn random(bounds: Size, min_size: Size, max_size: Size, rng: &mut Isaac64Rng) -> (r: Rect)
        requires
            min_size.width < max_size.width,
            min_size.height < max_size.height,
            max_size.width <= bounds.width,
            max_size.height <= bounds.height,
            bounds.width <= i32::MAX,
            bounds.height <= i32::MAX,
        ensures
            min_size.width <= r.size.width < max_size.width,
            min_size.height <= r.size.height < max_size.height,
            0 <= r.top_left.x,
            0 <= r.top_left.y,
            r.top_left.x + r.size.width < bounds.width,
            r.top_left.y + r.size.height < bounds.height,
    {
        let width = gen_range_u32(rng, min_size.width, max_size.width);
        let height = gen_range_u32(rng, min_size.height, max_size.height);
        let size = Size::new(width, height);
        let top_left_bounds = Size::new(bounds.width - size.width, bounds.height - size.height);
        let left = gen_range_u32(rng, 0, top_left_bounds.width);
        let top = gen_range_u32(rng, 0, top_left_bounds.height);
        let top_left = Coord::new(left as i32, top as i32);
        Rect { top_left, size }
    }

    /// True iff `coord` is on the border of the rectangle.
    pub fn is_edge(&self, coord: Coord) -> (b: bool)
        requires
            can_sub(coord, self.top_left),
            0 < self.size.width <= i32::MAX,
            0 < self.size.height <= i32::MAX,
        ensures
            b == rect_is_edge(*self, coord),
    {
        let rel = coord.minus(self.top_left);
        let b = self.size.is_on_edge(rel);
        assert(b == size_is_on_edge(self.size, coord_minus(coord, self.top_left)));
        b
    }

    /// The centre of the rectangle.
    pub fn centre(&self) -> (c: Coord)
        requires
            self.top_left.x + self.size.width / 2 <= i32::MAX,
            self.top_left.y + self.size.height / 2 <= i32::MAX,
        ensures
            c == rect_centre(*self),
    {
        Coord {
            x: self.top_left.x + (self.size.width / 2) as i32,
            y: self.top_left.y + (self.size.height / 2) as i32,
        }
    }
}

impl Room {
    /// True iff some cell of the room's rectangle is a floor cell of `map`.
    pub fn overlaps_with_floor(&self, map: &Grid<FloorOrWall>) -> (b: bool)
        requires
            map.wf(),
            rect_fits(self.rect, map.spec_size()),
        ensures
            b == exists|c: Coord| #[trigger] rect_contains(self.rect, c) && is_floor(*map, c),
    {
        let r = self.rect;
        let mut dy: u32 = 0;
        while dy < r.size.height
            invariant
                map.wf(),
                r == self.rect,
                rect_fits(r, map.spec_size()),
                dy <= r.size.height,
                forall|c: Coord|
                    rect_contains(r, c) && c.y < r.top_left.y + dy ==> !is_floor(*map, c),
            decreases r.size.height - dy,
        {
            let mut dx: u32 = 0;
            while dx < r.size.width
                invariant
                    map.wf(),
                    r == self.rect,
                    rect_fits(r, map.spec_size()),
                    dy < r.size.height,
                    dx <= r.size.width,
                    forall|c: Coord|
                        rect_contains(r, c) && c.y < r.top_left.y + dy ==> !is_floor(*map, c),
                    forall|c: Coord|
                        rect_contains(r, c) && c.y == r.top_left.y + dy && c.x < r.top_left.x
                            + dx ==> !is_floor(*map, c),
                decreases r.size.width - dx,
            {
                let c = Coord::new(r.top_left.x + dx as i32, r.top_left.y + dy as i32);
                if *map.get_checked(c) == FloorOrWall::Floor {
                    assert(rect_contains(self.rect, c) && is_floor(*map, c));
                    return true;
                }
                dx = dx + 1;
            }
            dy = dy + 1;
        }
        false
    }

    /// Makes every inner cell of the room's rectangle a floor cell.
    pub fn add_floor_to_map(&self, map: &mut Grid<FloorOrWall>)
        requires
            old(map).wf(),
            rect_fits(self.rect, old(map).spec_size()),
        ensures
            final(map).wf(),
            final(map).spec_size() == old(map).spec_size(),
            forall|c: Coord|
                #![trigger final(map).at(c)]
                final(map).contains(c) ==> final(map).at(c) == if rect_interior(self.rect, c) {
                    FloorOrWall::Floor
                } else {
                    old(map).at(c)
                },
    {
        let r = self.rect;
        let ghost m0 = *map;
        let mut dy: u32 = 0;
        while dy < r.size.height
            invariant
                map.wf(),
                map.spec_size() == m0.spec_size(),
                rect_fits(r, map.spec_size()),
                dy <= r.size.height,
                forall|c: Coord|
                    #![trigger map.at(c)]
                    map.contains(c) ==> map.at(c) == if rect_interior(r, c) && c.y < r.top_left.y
                        + dy {
                        FloorOrWall::Floor
                    } else {
                        m0.at(c)
                    },
            decreases r.size.height - dy,
        {
            let mut dx: u32 = 0;
            while dx < r.size.width
                invariant
                    map.wf(),
                    map.spec_size() == m0.spec_size(),
                    rect_fits(r, map.spec_size()),
                    dy < r.size.height,
                    dx <= r.size.width,
                    forall|c: Coord|
                        #![trigger map.at(c)]
                        map.contains(c) ==> map.at(c) == if rect_interior(r, c) && (c.y
                            < r.top_left.y + dy || (c.y == r.top_left.y + dy && c.x
                            < r.top_left.x + dx)) {
                            FloorOrWall::Floor
                        } else {
                            m0.at(c)
                        },
                decreases r.size.width - dx,
            {
                let c = Coord::new(r.top_left.x + dx as i32, r.top_left.y + dy as i32);
                if !r.is_edge(c) {
                    map.set(c, FloorOrWall::Floor);
                }
                dx = dx + 1;
            }
            dy = dy + 1;
        }
    }
}

/// True iff the cell has floor on both sides along `axis` and wall on both sides along the other
/// axis. Such a cell is suitable for a door.
fn is_cell_in_corridor_axis(map: &Grid<FloorOrWall>, coord: Coord, axis: Axis) -> (b: bool)
    requires
        map.wf(),
        inner(map.spec_size(), coord),
    ensures
        b == in_corridor_axis(*map, coord, axis),
{
    let a = coord.get(axis);
    let o = coord.get(axis.other());
    let floor_in_axis = *map.get_checked(Coord::new_axis(a + 1, o, axis)) == FloorOrWall::Floor
        && *map.get_checked(Coord::new_axis(a - 1, o, axis)) == FloorOrWall::Floor;
    let wall_in_other_axis = *map.get_checked(Coord::new_axis(a, o + 1, axis)) == FloorOrWall::Wall
        && *map.get_checked(Coord::new_axis(a, o - 1, axis)) == FloorOrWall::Wall;
    floor_in_axis && wall_in_other_axis
}

/// True iff the cell lies in a corridor along either axis.
fn is_cell_in_corridor(map: &Grid<FloorOrWall>, coord: Coord) -> (b: bool)
    requires
        map.wf(),
        inner(map.spec_size(), coord),
    ensures
        b == in_corridor(*map, coord),
{
    is_cell_in_corridor_axis(map, coord, Axis::X) || is_cell_in_corridor_axis(map, coord, Axis::Y)
}

/// True iff one of the four cells sharing a side with `coord` is a floor cell.
fn has_floor_neighbour(map: &Grid<FloorOrWall>, coord: Coord) -> (b: bool)
    requires
        map.wf(),
        inner(map.spec_size(), coord),
    ensures
        b == has_floor_neighbour_spec(*map, coord),
{
    *map.get_checked(Coord::new(coord.x, coord.y - 1)) == FloorOrWall::Floor || *map.get_checked(
        Coord::new(coord.x + 1, coord.y),
    ) == FloorOrWall::Floor || *map.get_checked(Coord::new(coord.x, coord.y + 1))
        == FloorOrWall::Floor || *map.get_checked(Coord::new(coord.x - 1, coord.y))
        == FloorOrWall::Floor
}

fn signum(v: i32) -> (s: i32)
    ensures
        s == if v > 0 {
            1int
        } else if v < 0 {
            -1int
        } else {
            0int
        },
{
    if v > 0 {
        1
    } else if v < 0 {
        -1
    } else {
        0
    }
}

/// The cells of an L-shaped corridor from `start` towards `end` that first moves along
/// `first_axis`. The corridor stops at the first cell that is next to a floor cell.
fn l_shaped_corridor_with_first_axis(
    start: Coord,
    end: Coord,
    map: &Grid<FloorOrWall>,
    first_axis: Axis,
) -> (r: Vec<Coord>)
    requires
        map.wf(),
        inner(map.spec_size(), start),
        inner(map.spec_size(), end),
    ensures
        floor_truncation(*map, l_path(start, end, first_axis), r@),
{
    let ghost p = l_path(start, end, first_axis);
    let ghost s1 = axis_get(start, first_axis);
    let ghost e1 = axis_get(end, first_axis);
    let ghost s2 = axis_get(start, other_axis(first_axis));
    let ghost e2 = axis_get(end, other_axis(first_axis));
    let ghost leg1_len: int = if e1 == s1 {
        0
    } else {
        abs_int(e1 - s1) - 1
    };
    proof {
        lemma_l_path_inner(map.spec_size(), start, end, first_axis);
        assert(p.len() == leg1_len + abs_int(e2 - s2));
    }
    let mut ret: Vec<Coord> = Vec::new();
    let d1 = signum(end.get(first_axis) - start.get(first_axis));
    let other = first_axis.other();
    let start_other = start.get(other);
    let mut current_first = start.get(first_axis) + d1;
    let mut k: usize = 0;
    if d1 == 0 {
        current_first = start.get(first_axis);
    }
    while current_first != end.get(first_axis)
        invariant
            map.wf(),
            inner(map.spec_size(), start),
            inner(map.spec_size(), end),
            p == l_path(start, end, first_axis),
            forall|i: int| 0 <= i < p.len() ==> inner(map.spec_size(), #[trigger] p[i]),
            p.len() == leg1_len + abs_int(e2 - s2),
            s1 == axis_get(start, first_axis),
            e1 == axis_get(end, first_axis),
            s2 == start_other,
            s2 == axis_get(start, other_axis(first_axis)),
            e2 == axis_get(end, other_axis(first_axis)),
            other == other_axis(first_axis),
            leg1_len == if e1 == s1 {
                0
            } else {
                abs_int(e1 - s1) - 1
            },
            d1 == if e1 > s1 {
                1int
            } else if e1 < s1 {
                -1int
            } else {
                0int
            },
            e1 == s1 ==> current_first == s1,
            e1 != s1 ==> current_first == step_towards(s1, e1, k + 1),
            k <= leg1_len,
            ret@ == p.take(k as int),
            forall|i: int| 0 <= i < ret@.len() ==> !has_floor_neighbour_spec(*map, #[trigger] ret@[i]),
        decreases leg1_len - k,
    {
        let current = Coord::new_axis(current_first, start_other, first_axis);
        assert(current == p[k as int]);
        ret.push(current);
        assert(ret@ =~= p.take(k + 1));
        if has_floor_neighbour(map, current) {
            return ret;
        }
        current_first = current_first + d1;
        k = k + 1;
    }
    assert(k == leg1_len);
    let d2 = signum(end.get(other) - start_other);
    let mut current_other = start_other;
    let mut j: usize = 0;
    while current_other != end.get(other)
        invariant
            map.wf(),
            p == l_path(start, end, first_axis),
            forall|i: int| 0 <= i < p.len() ==> inner(map.spec_size(), #[trigger] p[i]),
            p.len() == leg1_len + abs_int(e2 - s2),
            e1 == axis_get(end, first_axis),
            e1 == current_first,
            s2 == axis_get(start, other_axis(first_axis)),
            e2 == axis_get(end, other_axis(first_axis)),
            other == other_axis(first_axis),
            d2 == if e2 > s2 {
                1int
            } else if e2 < s2 {
                -1int
            } else {
                0int
            },
            current_other == step_towards(s2, e2, j as int),
            j <= abs_int(e2 - s2),
            ret@ == p.take(leg1_len + j),
            forall|i: int| 0 <= i < ret@.len() ==> !has_floor_neighbour_spec(*map, #[trigger] ret@[i]),
        decreases abs_int(e2 - s2) - j,
    {
        let current = Coord::new_axis(current_first, current_other, first_axis);
        assert(current == p[leg1_len + j]);
        ret.push(current);
        assert(ret@ =~= p.take(leg1_len + j + 1));
        if has_floor_neighbour(map, current) {
            return ret;
        }
        current_other = current_other + d2;
        j = j + 1;
    }
    assert(ret@ =~= p);
    ret
}

/// An L-shaped corridor from `start` towards `end` whose first axis is chosen at random.
fn l_shaped_corridor(start: Coord, end: Coord, map: &Grid<FloorOrWall>, rng: &mut Isaac64Rng) -> (r:
    Vec<Coord>)
    requires
        map.wf(),
        inner(map.spec_size(), start),
        inner(map.spec_size(), end),
    ensures
        floor_truncation(*map, l_path(start, end, Axis::X), r@) || floor_truncation(
            *map,
            l_path(start, end, Axis::Y),
            r@,
        ),
{
    let axis = if gen_bool(rng) {
        Axis::X
    } else {
        Axis::Y
    };
    l_shaped_corridor_with_first_axis(start, end, map, axis)
}

/// The cell is on one of the L-shaped paths from `from` to the centre of one of `rooms`.
pub open spec fn on_path_to_some_room(rooms: Seq<Room>, from: Coord, c: Coord) -> bool {
    exists|i: int, axis: Axis|
        0 <= i < rooms.len() && #[trigger] l_path(from, rect_centre(rooms[i].rect), axis).contains(c)
}

/// The four cells sharing a side with `c`, in the order the corridor digger looks at them.
pub open spec fn side_neighbours(c: Coord) -> Seq<Coord> {
    seq![
        Coord { x: c.x, y: (c.y - 1) as i32 },
        Coord { x: (c.x + 1) as i32, y: c.y },
        Coord { x: c.x, y: (c.y + 1) as i32 },
        Coord { x: (c.x - 1) as i32, y: c.y },
    ]
}

/// `c` shares a side with an open cell that lies outside `rect` or on one of the corridors
/// `earlier`.
pub open spec fn meets_open(open: spec_fn(Coord) -> bool, rect: Rect, earlier: Seq<Seq<Coord>>, c: Coord) -> bool {
    exists|k: int|
        0 <= k < 4 && open(#[trigger] side_neighbours(c)[k]) && (!rect_contains(rect, side_neighbours(c)[k])
            || exists|e: int| 0 <= e < earlier.len() && earlier[e].contains(side_neighbours(c)[k]))
}

/// `r` is a corridor of open cells dug from the centre of `rect` along an L-shaped path
/// towards `to`: a prefix of the path that is all of it, or that stops at a cell meeting an
/// open cell outside `rect` or on one of the corridors `earlier`.
pub open spec fn corridor_joins(
    open: spec_fn(Coord) -> bool,
    rect: Rect,
    to: Coord,
    earlier: Seq<Seq<Coord>>,
    r: Seq<Coord>,
) -> bool {
    exists|axis: Axis|
        {
            let p = #[trigger] l_path(rect_centre(rect), to, axis);
            &&& r.len() <= p.len()
            &&& r == p.take(r.len() as int)
            &&& forall|t: int| 0 <= t < r.len() ==> open(#[trigger] r[t])
            &&& (r.len() == p.len() || (r.len() > 0 && meets_open(open, rect, earlier, r[r.len() - 1])))
        }
}

/// The room `rooms[j]` is joined to `min(2, j)` distinct earlier rooms `idx`, each by the
/// corridor of `cors` with the same position, over the cells that `open` holds.
pub open spec fn room_joined(
    open: spec_fn(Coord) -> bool,
    rooms: Seq<Room>,
    j: int,
    idx: Seq<int>,
    cors: Seq<Seq<Coord>>,
) -> bool {
    &&& idx.len() == if j < 2 {
        j
    } else {
        2
    }
    &&& cors.len() == idx.len()
    &&& forall|i: int| 0 <= i < idx.len() ==> 0 <= #[trigger] idx[i] < j
    &&& forall|a: int, b: int| 0 <= a < b < idx.len() ==> #[trigger] idx[a] != #[trigger] idx[b]
    &&& forall|i: int|
        0 <= i < idx.len() ==> #[trigger] corridor_joins(
            open,
            rooms[j].rect,
            rect_centre(rooms[idx[i]].rect),
            cors.take(i),
            cors[i],
        )
}

/// Every room after the first is joined to up to two earlier rooms over the cells of `open`.
pub open spec fn rooms_joined(open: spec_fn(Coord) -> bool, rooms: Seq<Room>) -> bool {
    forall|j: int| 0 <= j < rooms.len() ==> #[trigger] room_joined_somehow(open, rooms, j)
}

/// The room `rooms[j]` is joined to `min(2, j)` distinct earlier rooms by some corridors.
pub open spec fn room_joined_somehow(open: spec_fn(Coord) -> bool, rooms: Seq<Room>, j: int) -> bool {
    exists|idx: Seq<int>, cors: Seq<Seq<Coord>>| #[trigger] room_joined(open, rooms, j, idx, cors)
}

/// The floor cells of `map`.
pub open spec fn floor_set(map: Grid<FloorOrWall>) -> spec_fn(Coord) -> bool {
    |c: Coord| map.contains(c) && is_floor(map, c)
}

/// A corridor over the cells of `open1` is a corridor over any set `open2` holding them.
proof fn lemma_corridor_grows(
    open1: spec_fn(Coord) -> bool,
    open2: spec_fn(Coord) -> bool,
    rect: Rect,
    to: Coord,
    earlier: Seq<Seq<Coord>>,
    r: Seq<Coord>,
)
    requires
        corridor_joins(open1, rect, to, earlier, r),
        forall|c: Coord| #[trigger] open1(c) ==> open2(c),
    ensures
        corridor_joins(open2, rect, to, earlier, r),
{
    let axis = choose|axis: Axis|
        {
            let p = #[trigger] l_path(rect_centre(rect), to, axis);
            &&& r.len() <= p.len()
            &&& r == p.take(r.len() as int)
            &&& forall|t: int| 0 <= t < r.len() ==> open1(#[trigger] r[t])
            &&& (r.len() == p.len() || (r.len() > 0 && meets_open(open1, rect, earlier, r[r.len() - 1])))
        };
    let p = l_path(rect_centre(rect), to, axis);
    if r.len() != p.len() {
        let c = r[r.len() - 1];
        let k = choose|k: int|
            0 <= k < 4 && open1(#[trigger] side_neighbours(c)[k]) && (!rect_contains(rect, side_neighbours(c)[k])
                || exists|e: int| 0 <= e < earlier.len() && earlier[e].contains(side_neighbours(c)[k]));
        assert(open2(side_neighbours(c)[k]));
        assert(meets_open(open2, rect, earlier, c));
    }
    assert forall|t: int| 0 <= t < r.len() implies open2(#[trigger] r[t]) by {
        assert(open1(r[t]));
    }
}

/// A join over the cells of `open1` is a join over any set `open2` holding them, and it stays
/// a join when more rooms are placed after.
proof fn lemma_room_joined_grows(
    open1: spec_fn(Coord) -> bool,
    open2: spec_fn(Coord) -> bool,
    rooms1: Seq<Room>,
    rooms2: Seq<Room>,
    j: int,
    idx: Seq<int>,
    cors: Seq<Seq<Coord>>,
)
    requires
        room_joined(open1, rooms1, j, idx, cors),
        forall|c: Coord| #[trigger] open1(c) ==> open2(c),
        0 <= j < rooms1.len() <= rooms2.len(),
        forall|k: int| 0 <= k < rooms1.len() ==> rooms2[k] == rooms1[k],
    ensures
        room_joined(open2, rooms2, j, idx, cors),
{
    assert forall|i: int| 0 <= i < idx.len() implies #[trigger] corridor_joins(
        open2,
        rooms2[j].rect,
        rect_centre(rooms2[idx[i]].rect),
        cors.take(i),
        cors[i],
    ) by {
        assert(corridor_joins(open1, rooms1[j].rect, rect_centre(rooms1[idx[i]].rect), cors.take(i), cors[i]));
        assert(rooms2[j] == rooms1[j]);
        assert(rooms2[idx[i]] == rooms1[idx[i]]);
        lemma_corridor_grows(open1, open2, rooms1[j].rect, rect_centre(rooms1[idx[i]].rect), cors.take(i), cors[i]);
    }
}

/// A room whose rectangle fits in `bounds` has its centre and inside cells away from the border.
proof fn lemma_rect_fits_inner(r: Rect, bounds: Size)
    requires
        rect_fits(r, bounds),
    ensures
        inner(bounds, rect_centre(r)),
        rect_interior(r, rect_centre(r)),
        forall|c: Coord| rect_contains(r, c) ==> 0 <= c.x < bounds.width && 0 <= c.y < bounds.height,
        forall|c: Coord| rect_interior(r, c) ==> inner(bounds, c),
{
}

/// Sets the flag of every border cell of `rect`.
fn mark_edges(edges: &mut Grid<bool>, rect: Rect)
    requires
        old(edges).wf(),
        rect_fits(rect, old(edges).spec_size()),
    ensures
        final(edges).wf(),
        final(edges).spec_size() == old(edges).spec_size(),
        forall|c: Coord|
            #![trigger final(edges).at(c)]
            final(edges).contains(c) ==> final(edges).at(c) == (rect_is_edge(rect, c) || old(
                edges,
            ).at(c)),
{
    let ghost e0 = *edges;
    let mut dy: u32 = 0;
    while dy < rect.size.height
        invariant
            edges.wf(),
            edges.spec_size() == e0.spec_size(),
            rect_fits(rect, edges.spec_size()),
            dy <= rect.size.height,
            forall|c: Coord|
                #![trigger edges.at(c)]
                edges.contains(c) ==> edges.at(c) == ((rect_is_edge(rect, c) && c.y < rect.top_left.y
                    + dy) || e0.at(c)),
        decreases rect.size.height - dy,
    {
        let mut dx: u32 = 0;
        while dx < rect.size.width
            invariant
                edges.wf(),
                edges.spec_size() == e0.spec_size(),
                rect_fits(rect, edges.spec_size()),
                dy < rect.size.height,
                dx <= rect.size.width,
                forall|c: Coord|
                    #![trigger edges.at(c)]
                    edges.contains(c) ==> edges.at(c) == ((rect_is_edge(rect, c) && (c.y
                        < rect.top_left.y + dy || (c.y == rect.top_left.y + dy && c.x
                        < rect.top_left.x + dx))) || e0.at(c)),
            decreases rect.size.width - dx,
        {
            let c = Coord::new(rect.top_left.x + dx as i32, rect.top_left.y + dy as i32);
            if rect.is_edge(c) {
                edges.set(c, true);
            }
            dx = dx + 1;
        }
        dy = dy + 1;
    }
}

/// Makes every cell of the corridor a floor cell.
fn carve(map: &mut Grid<FloorOrWall>, corridor: &Vec<Coord>)
    requires
        old(map).wf(),
        forall|k: int| 0 <= k < corridor@.len() ==> inner(old(map).spec_size(), #[trigger] corridor@[k]),
    ensures
        final(map).wf(),
        final(map).spec_size() == old(map).spec_size(),
        forall|c: Coord| final(map).contains(c) && is_floor(*old(map), c) ==> is_floor(*final(map), c),
        forall|c: Coord|
            final(map).contains(c) && is_floor(*final(map), c) && !is_floor(*old(map), c)
                ==> corridor@.contains(c),
        forall|k: int| 0 <= k < corridor@.len() ==> is_floor(*final(map), #[trigger] corridor@[k]),
{
    let ghost m0 = *map;
    let mut k: usize = 0;
    while k < corridor.len()
        invariant
            map.wf(),
            map.spec_size() == m0.spec_size(),
            k <= corridor@.len(),
            forall|k: int| 0 <= k < corridor@.len() ==> inner(m0.spec_size(), #[trigger] corridor@[k]),
            forall|c: Coord| map.contains(c) && is_floor(m0, c) ==> is_floor(*map, c),
            forall|c: Coord|
                map.contains(c) && is_floor(*map, c) && !is_floor(m0, c) ==> corridor@.take(
                    k as int,
                ).contains(c),
            forall|t: int| 0 <= t < k ==> is_floor(*map, #[trigger] corridor@[t]),
        decreases corridor@.len() - k,
    {
        let c = corridor[k];
        let ghost m1 = *map;
        map.set(c, FloorOrWall::Floor);
        proof {
            assert(corridor@.take(k + 1)[k as int] == c);
            assert forall|d: Coord|
                map.contains(d) && is_floor(*map, d) && !is_floor(m0, d) implies corridor@.take(
                k + 1,
            ).contains(d) by {
                if d != c {
                    assert(is_floor(m1, d));
                    let t = choose|t: int| 0 <= t < k && corridor@.take(k as int)[t] == d;
                    assert(corridor@.take(k + 1)[t] == d);
                }
            }
            assert forall|t: int| 0 <= t < k + 1 implies is_floor(*map, #[trigger] corridor@[t]) by {
                if corridor@[t] != c {
                    assert(is_floor(m1, corridor@[t]));
                }
            }
            assert forall|d: Coord| map.contains(d) && is_floor(m0, d) implies is_floor(*map, d) by {
                if d != c {
                    assert(is_floor(m1, d));
                }
            }
        }
        k = k + 1;
    }
    assert(corridor@.take(corridor@.len() as int) =~= corridor@);
}

/// A cell that may become a door: a room border lying in a corridor.
pub open spec fn door_spot(edges: Grid<bool>, map: Grid<FloorOrWall>) -> spec_fn(Coord) -> bool {
    |c: Coord| edges.at(c) && in_corridor(map, c)
}

/// Among the first `k` cells of `s`, those that satisfy `p` while the cell after them, also
/// among the first `k`, does not: the ends of runs of such cells that are already closed.
pub open spec fn closed_run_ends(s: Seq<Coord>, p: spec_fn(Coord) -> bool, k: int) -> Seq<Coord>
    decreases k,
{
    if k <= 1 {
        Seq::empty()
    } else {
        let prev = closed_run_ends(s, p, k - 1);
        if p(s[k - 2]) && !p(s[k - 1]) {
            prev.push(s[k - 2])
        } else {
            prev
        }
    }
}

/// The last cell of each run of consecutive cells of `s` that satisfy `p`, in order.
pub open spec fn run_ends(s: Seq<Coord>, p: spec_fn(Coord) -> bool) -> Seq<Coord> {
    let closed = closed_run_ends(s, p, s.len() as int);
    if s.len() > 0 && p(s[s.len() - 1]) {
        closed.push(s[s.len() - 1])
    } else {
        closed
    }
}

/// Appends to `door_candidates` the cells of the corridor that are room borders lying in a
/// corridor, keeping only the last cell of each run of consecutive such cells.
fn collect_door_candidates(
    door_candidates: &mut Vec<Coord>,
    edges: &Grid<bool>,
    map: &Grid<FloorOrWall>,
    corridor: &Vec<Coord>,
)
    requires
        edges.wf(),
        map.wf(),
        edges.spec_size() == map.spec_size(),
        forall|k: int| 0 <= k < corridor@.len() ==> inner(map.spec_size(), #[trigger] corridor@[k]),
    ensures
        final(door_candidates)@.len() >= old(door_candidates)@.len(),
        final(door_candidates)@.take(old(door_candidates)@.len() as int) == old(door_candidates)@,
        forall|k: int|
            old(door_candidates)@.len() <= k < final(door_candidates)@.len() ==> {
                let c = #[trigger] final(door_candidates)@[k];
                &&& corridor@.contains(c)
                &&& edges.at(c)
                &&& in_corridor(*map, c)
            },
        final(door_candidates)@ == old(door_candidates)@ + run_ends(corridor@, door_spot(*edges, *map)),
{
    let ghost d0 = door_candidates@;
    let ghost p = door_spot(*edges, *map);
    let mut door_candidate: Option<Coord> = None;
    let mut k: usize = 0;
    while k < corridor.len()
        invariant
            edges.wf(),
            map.wf(),
            edges.spec_size() == map.spec_size(),
            forall|k: int| 0 <= k < corridor@.len() ==> inner(map.spec_size(), #[trigger] corridor@[k]),
            k <= corridor@.len(),
            door_candidates@.len() >= d0.len(),
            door_candidates@.take(d0.len() as int) == d0,
            forall|i: int|
                d0.len() <= i < door_candidates@.len() ==> {
                    let c = #[trigger] door_candidates@[i];
                    &&& corridor@.contains(c)
                    &&& edges.at(c)
                    &&& in_corridor(*map, c)
                },
            door_candidate matches Some(c) ==> corridor@.contains(c) && edges.at(c) && in_corridor(
                *map,
                c,
            ),
            p == door_spot(*edges, *map),
            door_candidates@ == d0 + closed_run_ends(corridor@, p, k as int),
            door_candidate == if k > 0 && p(corridor@[k - 1]) {
                Some(corridor@[k - 1])
            } else {
                None
            },
        decreases corridor@.len() - k,
    {
        let coord = corridor[k];
        let ghost before = door_candidates@;
        if *edges.get_checked(coord) && is_cell_in_corridor(map, coord) {
            door_candidate = Some(coord);
        } else if let Some(c) = door_candidate {
            door_candidate = None;
            door_candidates.push(c);
        }
        proof {
            assert(corridor@[k as int] == coord);
            if k > 0 {
                assert(closed_run_ends(corridor@, p, k + 1) == if p(corridor@[k - 1]) && !p(corridor@[k as int]) {
                    closed_run_ends(corridor@, p, k as int).push(corridor@[k - 1])
                } else {
                    closed_run_ends(corridor@, p, k as int)
                });
                if p(corridor@[k - 1]) && !p(corridor@[k as int]) {
                    assert(door_candidates@ =~= before.push(corridor@[k - 1]));
                }
            }
        }
        k = k + 1;
    }
    let ghost before = door_candidates@;
    if let Some(c) = door_candidate {
        door_candidates.push(c);
    }
    proof {
        if door_candidate is Some {
            assert(door_candidates@ =~= before.push(corridor@[corridor@.len() - 1]));
        }
        assert(door_candidates@ =~= d0 + run_ends(corridor@, p));
    }
}

/// The state of room placement: the rooms placed so far, the border cells of those rooms, the
/// cells suitable for doors, and whether each cell is floor or wall.
struct RoomPlacement {
    rooms: Vec<Room>,
    edge_coords: Grid<bool>,
    door_candidates: Vec<Coord>,
    map: Grid<FloorOrWall>,
}

/// Every room fits in `bounds`; the inside of every room is floor; a room placed later does not
/// cover the inside of a room placed earlier.
pub open spec fn rooms_consistent(rooms: Seq<Room>, map: Grid<FloorOrWall>, bounds: Size) -> bool {
    &&& forall|i: int| 0 <= i < rooms.len() ==> rect_fits(#[trigger] rooms[i].rect, bounds)
    &&& forall|i: int, c: Coord|
        0 <= i < rooms.len() && #[trigger] rect_interior(rooms[i].rect, c) ==> is_floor(map, c)
    &&& forall|i: int, j: int, c: Coord|
        0 <= i < j < rooms.len() && #[trigger] rect_contains(rooms[j].rect, c) ==> !#[trigger] rect_interior(
            rooms[i].rect,
            c,
        )
}

impl RoomPlacement {
    spec fn wf(&self, bounds: Size) -> bool {
        &&& self.map.wf()
        &&& self.map.spec_size() == bounds
        &&& self.edge_coords.wf()
        &&& self.edge_coords.spec_size() == bounds
        &&& bounds.width <= i32::MAX
        &&& bounds.height <= i32::MAX
        &&& rooms_consistent(self.rooms@, self.map, bounds)
        &&& forall|k: int|
            0 <= k < self.door_candidates@.len() ==> inner(bounds, #[trigger] self.door_candidates@[k])
        &&& forall|k: int|
            0 <= k < self.door_candidates@.len() ==> is_floor(self.map, #[trigger] self.door_candidates@[k])
    }

    fn new(size: Size) -> (p: RoomPlacement)
        requires
            size.width <= i32::MAX,
            size.height <= i32::MAX,
            size.width * size.height <= usize::MAX,
        ensures
            p.wf(size),
            p.rooms@.len() == 0,
            forall|c: Coord| p.map.contains(c) ==> !is_floor(p.map, c),
    {
        RoomPlacement {
            rooms: Vec::new(),
            edge_coords: Grid::new_copy(size, false),
            door_candidates: Vec::new(),
            map: Grid::new_copy(size, FloorOrWall::Wall),
        }
    }

    /// Adds the room, joined by corridors to up to two of the rooms placed so far, unless its
    /// rectangle covers a floor cell.
    fn try_add_room(&mut self, new_room: Room, rng: &mut Isaac64Rng)
        requires
            old(self).wf(bounds_of(old(self))),
            rect_fits(new_room.rect, bounds_of(old(self))),
        ensures
            final(self).wf(bounds_of(old(self))),
            bounds_of(final(self)) == bounds_of(old(self)),
            (exists|c: Coord| #[trigger] rect_contains(new_room.rect, c) && is_floor(old(self).map, c))
                ==> final(self).rooms@ == old(self).rooms@ && final(self).map.spec_cells() == old(
                self,
            ).map.spec_cells(),
            !(exists|c: Coord| #[trigger] rect_contains(new_room.rect, c) && is_floor(old(self).map, c))
                ==> final(self).rooms@ == old(self).rooms@.push(new_room),
            !(exists|c: Coord| #[trigger] rect_contains(new_room.rect, c) && is_floor(old(self).map, c))
                ==> room_joined_somehow(floor_set(final(self).map), final(self).rooms@, old(self).rooms@.len() as int),
            forall|c: Coord|
                final(self).map.contains(c) && is_floor(old(self).map, c) ==> is_floor(
                    final(self).map,
                    c,
                ),
            forall|c: Coord|
                final(self).map.contains(c) && is_floor(final(self).map, c) && !is_floor(
                    old(self).map,
                    c,
                ) ==> rect_interior(new_room.rect, c) || on_path_to_some_room(
                    old(self).rooms@,
                    rect_centre(new_room.rect),
                    c,
                ),
    {
        let ghost bounds = bounds_of(self);
        let ghost m0 = self.map;
        proof {
            lemma_rect_fits_inner(new_room.rect, bounds);
        }
        if new_room.overlaps_with_floor(&self.map) {
            return;
        }
        mark_edges(&mut self.edge_coords, new_room.rect);
        let chosen = choose_multiple(rng, &self.rooms, 2);
        let ghost idx = choose|idx: Seq<int>| selection_indices(chosen@, self.rooms@, idx);
        let new_centre = new_room.rect.centre();
        let ghost mut cors: Seq<Seq<Coord>> = Seq::empty();
        let mut ci: usize = 0;
        while ci < chosen.len()
            invariant
                cors.len() == ci,
                forall|i: int|
                    0 <= i < ci ==> #[trigger] corridor_joins(
                        floor_set(self.map),
                        new_room.rect,
                        rect_centre(self.rooms@[idx[i]].rect),
                        cors.take(i),
                        cors[i],
                    ),
                forall|c: Coord|
                    #![trigger is_floor(self.map, c)]
                    self.map.contains(c) && is_floor(self.map, c) && !is_floor(m0, c) ==> exists|e: int|
                        0 <= e < cors.len() && #[trigger] cors[e].contains(c),
                self.map.wf(),
                self.map.spec_size() == bounds,
                self.edge_coords.wf(),
                self.edge_coords.spec_size() == bounds,
                bounds.width <= i32::MAX,
                bounds.height <= i32::MAX,
                rect_fits(new_room.rect, bounds),
                new_centre == rect_centre(new_room.rect),
                inner(bounds, new_centre),
                ci <= chosen@.len(),
                idx.len() == chosen@.len(),
                forall|i: int| 0 <= i < idx.len() ==> 0 <= #[trigger] idx[i] < self.rooms@.len(),
                forall|i: int| 0 <= i < idx.len() ==> chosen@[i] == self.rooms@[#[trigger] idx[i]],
                forall|i: int| 0 <= i < self.rooms@.len() ==> rect_fits(#[trigger] self.rooms@[i].rect, bounds),
                self.rooms@ == old(self).rooms@,
                m0 == old(self).map,
                rooms_consistent(self.rooms@, m0, bounds),
                !(exists|c: Coord| #[trigger] rect_contains(new_room.rect, c) && is_floor(m0, c)),
                forall|c: Coord| self.map.contains(c) && is_floor(m0, c) ==> is_floor(self.map, c),
                forall|c: Coord|
                    self.map.contains(c) && is_floor(self.map, c) && !is_floor(m0, c)
                        ==> on_path_to_some_room(self.rooms@, new_centre, c),
                forall|k: int|
                    0 <= k < self.door_candidates@.len() ==> inner(bounds, #[trigger] self.door_candidates@[k]),
                forall|k: int|
                    0 <= k < self.door_candidates@.len() ==> is_floor(self.map, #[trigger] self.door_candidates@[k]),
            decreases chosen@.len() - ci,
        {
            let existing_room = chosen[ci];
            proof {
                lemma_rect_fits_inner(self.rooms@[idx[ci as int]].rect, bounds);
            }
            let existing_centre = existing_room.rect.centre();
            let corridor = l_shaped_corridor(new_centre, existing_centre, &self.map, rng);
            let ghost axis = if floor_truncation(self.map, l_path(new_centre, existing_centre, Axis::X), corridor@) {
                Axis::X
            } else {
                Axis::Y
            };
            proof {
                lemma_l_path_inner(bounds, new_centre, existing_centre, axis);
                assert forall|k: int| 0 <= k < corridor@.len() implies inner(bounds, #[trigger] corridor@[k]) by {
                    assert(corridor@[k] == l_path(new_centre, existing_centre, axis)[k]);
                }
            }
            let ghost m1 = self.map;
            carve(&mut self.map, &corridor);
            proof {
                let m2 = self.map;
                let p = l_path(new_centre, existing_centre, axis);
                let r = corridor@;
                if r.len() != p.len() {
                    let last = r[r.len() - 1];
                    assert(inner(bounds, corridor@[r.len() - 1]));
                    assert(has_floor_neighbour_spec(m1, last));
                    let k: int = if is_floor(m1, side_neighbours(last)[0]) {
                        0
                    } else if is_floor(m1, side_neighbours(last)[1]) {
                        1
                    } else if is_floor(m1, side_neighbours(last)[2]) {
                        2
                    } else {
                        3
                    };
                    let n = side_neighbours(last)[k];
                    assert(is_floor(m1, n));
                    assert(m2.contains(n));
                    assert(floor_set(m2)(n));
                    if rect_contains(new_room.rect, n) {
                        assert(!is_floor(m0, n));
                        let e = choose|e: int| 0 <= e < cors.len() && #[trigger] cors[e].contains(n);
                        assert(0 <= e < cors.len() && cors[e].contains(n));
                    }
                    assert(meets_open(floor_set(m2), new_room.rect, cors, last));
                }
                assert forall|t: int| 0 <= t < r.len() implies floor_set(m2)(#[trigger] r[t]) by {
                    assert(is_floor(m2, corridor@[t]));
                }
                assert(rect_centre(new_room.rect) == new_centre);
                assert(corridor_joins(floor_set(m2), new_room.rect, existing_centre, cors, r));
                assert forall|i: int| 0 <= i < ci implies #[trigger] corridor_joins(
                    floor_set(m2),
                    new_room.rect,
                    rect_centre(self.rooms@[idx[i]].rect),
                    cors.take(i),
                    cors[i],
                ) by {
                    assert forall|c: Coord| #[trigger] floor_set(m1)(c) implies floor_set(m2)(c) by {
                        assert(m2.contains(c));
                    }
                    lemma_corridor_grows(floor_set(m1), floor_set(m2), new_room.rect, rect_centre(self.rooms@[idx[i]].rect), cors.take(i), cors[i]);
                }
                let cors2 = cors.push(r);
                assert forall|i: int| 0 <= i < ci + 1 implies #[trigger] corridor_joins(
                    floor_set(m2),
                    new_room.rect,
                    rect_centre(self.rooms@[idx[i]].rect),
                    cors2.take(i),
                    cors2[i],
                ) by {
                    if i < ci {
                        assert(cors2.take(i) =~= cors.take(i));
                        assert(cors2[i] == cors[i]);
                    } else {
                        assert(cors2.take(i) =~= cors);
                        assert(existing_centre == rect_centre(self.rooms@[idx[i]].rect));
                    }
                }
                assert forall|c: Coord|
                    #![trigger is_floor(m2, c)]
                    m2.contains(c) && is_floor(m2, c) && !is_floor(m0, c) implies exists|e: int|
                        0 <= e < cors2.len() && #[trigger] cors2[e].contains(c) by {
                    if is_floor(m1, c) {
                        let e = choose|e: int| 0 <= e < cors.len() && #[trigger] cors[e].contains(c);
                        assert(cors2[e] == cors[e]);
                    } else {
                        assert(corridor@.contains(c));
                        assert(cors2[ci as int] == r);
                    }
                }
                cors = cors2;
            }
            proof {
                assert forall|c: Coord|
                    self.map.contains(c) && is_floor(self.map, c) && !is_floor(m0, c)
                        implies on_path_to_some_room(self.rooms@, new_centre, c) by {
                    if !is_floor(m1, c) {
                        let t = choose|t: int| 0 <= t < corridor@.len() && corridor@[t] == c;
                        let p = l_path(new_centre, existing_centre, axis);
                        assert(p[t] == c);
                        assert(p.contains(c));
                        let i = idx[ci as int];
                        assert(existing_centre == rect_centre(self.rooms@[i].rect));
                        assert(l_path(new_centre, rect_centre(self.rooms@[i].rect), axis).contains(c));
                    }
                }
            }
            let ghost dc_before = self.door_candidates@;
            collect_door_candidates(
                &mut self.door_candidates,
                &self.edge_coords,
                &self.map,
                &corridor,
            );
            proof {
                assert forall|k: int|
                    0 <= k < self.door_candidates@.len() implies inner(bounds, #[trigger] self.door_candidates@[k]) by {
                    let c = self.door_candidates@[k];
                    if k >= dc_before.len() {
                        let t = choose|t: int| 0 <= t < corridor@.len() && corridor@[t] == c;
                        assert(inner(bounds, corridor@[t]));
                    } else {
                        assert(self.door_candidates@.take(dc_before.len() as int)[k] == c);
                        assert(dc_before[k] == c);
                    }
                }
                assert forall|k: int|
                    0 <= k < self.door_candidates@.len() implies is_floor(self.map, #[trigger] self.door_candidates@[k]) by {
                    let c = self.door_candidates@[k];
                    if k >= dc_before.len() {
                        let t = choose|t: int| 0 <= t < corridor@.len() && corridor@[t] == c;
                        assert(is_floor(self.map, corridor@[t]));
                    } else {
                        assert(self.door_candidates@.take(dc_before.len() as int)[k] == c);
                        assert(dc_before[k] == c);
                        assert(inner(bounds, dc_before[k]));
                        assert(is_floor(m1, c));
                    }
                }
            }
            ci = ci + 1;
        }
        let ghost m2 = self.map;
        new_room.add_floor_to_map(&mut self.map);
        self.rooms.push(new_room);
        proof {
            assert forall|k: int|
                0 <= k < self.door_candidates@.len() implies is_floor(self.map, #[trigger] self.door_candidates@[k]) by {
                assert(inner(bounds, self.door_candidates@[k]));
                assert(is_floor(m2, self.door_candidates@[k]));
            }
            assert forall|c: Coord| self.map.contains(c) && is_floor(m0, c) implies is_floor(self.map, c) by {
                assert(is_floor(m2, c));
            }
            assert forall|i: int, c: Coord|
                0 <= i < self.rooms@.len() && #[trigger] rect_interior(self.rooms@[i].rect, c)
                    implies is_floor(self.map, c) by {
                if i < old(self).rooms@.len() {
                    lemma_rect_fits_inner(self.rooms@[i].rect, bounds);
                    assert(is_floor(m0, c));
                    assert(is_floor(m2, c));
                } else {
                    lemma_rect_fits_inner(new_room.rect, bounds);
                }
            }
            assert forall|i: int, j: int, c: Coord|
                0 <= i < j < self.rooms@.len() && #[trigger] rect_contains(self.rooms@[j].rect, c)
                    implies !#[trigger] rect_interior(self.rooms@[i].rect, c) by {
                if j == old(self).rooms@.len() {
                    if rect_interior(self.rooms@[i].rect, c) {
                        assert(is_floor(m0, c));
                        assert(rect_contains(new_room.rect, c) && is_floor(m0, c));
                    }
                } else {
                    assert(self.rooms@[j] == old(self).rooms@[j]);
                    assert(self.rooms@[i] == old(self).rooms@[i]);
                }
            }
            assert forall|c: Coord|
                self.map.contains(c) && is_floor(self.map, c) && !is_floor(m0, c) implies rect_interior(
                new_room.rect,
                c,
            ) || on_path_to_some_room(old(self).rooms@, rect_centre(new_room.rect), c) by {
                if !rect_interior(new_room.rect, c) {
                    assert(is_floor(m2, c));
                }
            }
            let j = old(self).rooms@.len() as int;
            let rooms = self.rooms@;
            assert forall|c: Coord| #[trigger] floor_set(m2)(c) implies floor_set(self.map)(c) by {
                assert(self.map.contains(c));
            }
            assert forall|i: int| 0 <= i < idx.len() implies #[trigger] corridor_joins(
                floor_set(self.map),
                rooms[j].rect,
                rect_centre(rooms[idx[i]].rect),
                cors.take(i),
                cors[i],
            ) by {
                assert(rooms[idx[i]] == old(self).rooms@[idx[i]]);
                assert(rooms[j] == new_room);
                lemma_corridor_grows(floor_set(m2), floor_set(self.map), new_room.rect, rect_centre(old(self).rooms@[idx[i]].rect), cors.take(i), cors[i]);
            }
            assert(room_joined(floor_set(self.map), rooms, j, idx, cors));
        }
    }
}

/// The size of the placement's map.
spec fn bounds_of(p: &RoomPlacement) -> Size {
    p.map.spec_size()
}

/// A cell of a rooms-and-corridors level.
#[derive(Clone, Copy, Debug, PartialEq, Eq, Structural)]
pub enum RoomsAndCorridorsCell {
    Floor,
    Wall,
    Door,
}

/// A level made up of rooms and corridors.
pub struct RoomsAndCorridorsLevel {
    /// Whether each cell is a floor, a wall or a door.
    pub map: Grid<RoomsAndCorridorsCell>,
    /// Where the player starts.
    pub player_spawn: Coord,
    /// Where the player is headed.
    pub destination: Coord,
    /// The centres of the rooms other than those of the spawn and the destination.
    pub other_room_centres: Vec<Coord>,
    /// The rooms drawn in each attempt to place one, in order, each with whether it was kept.
    pub attempts: Ghost<Seq<(Room, bool)>>,
}

/// The rooms kept among the attempts `att`, in order.
pub open spec fn kept_rooms(att: Seq<(Room, bool)>) -> Seq<Room>
    decreases att.len(),
{
    if att.len() == 0 {
        Seq::empty()
    } else if att.last().1 {
        kept_rooms(att.drop_last()).push(att.last().0)
    } else {
        kept_rooms(att.drop_last())
    }
}

/// The rooms kept among the attempts are exactly the rooms of the attempts marked kept, in the
/// order they were drawn, and there are as many kept rooms as kept attempts.
pub proof fn law_kept_rooms_are_drawn(att: Seq<(Room, bool)>)
    ensures
        kept_rooms(att).len() <= att.len(),
        kept_rooms(att).len() == att.filter(|a: (Room, bool)| a.1).len(),
        kept_rooms(att) == att.filter(|a: (Room, bool)| a.1).map_values(|a: (Room, bool)| a.0),
    decreases att.len(),
{
    if att.len() > 0 {
        law_kept_rooms_are_drawn(att.drop_last());
        assert(att =~= att.drop_last().push(att.last()));
        att.drop_last().lemma_filter_push(att.last(), |a: (Room, bool)| a.1);
        let f0 = att.drop_last().filter(|a: (Room, bool)| a.1);
        if att.last().1 {
            assert(f0.push(att.last()).map_values(|a: (Room, bool)| a.0) =~= f0.map_values(|a: (Room, bool)| a.0).push(
                att.last().0,
            ));
        }
    }
}

/// The room of an attempt could go in a level of size `size`: it fits, and it is 5 to 10 cells
/// wide and 5 to 8 high.
pub open spec fn drawable_room(r: Room, size: Size) -> bool {
    &&& rect_fits(r.rect, size)
    &&& 5 <= r.rect.size.width < 11
    &&& 5 <= r.rect.size.height < 9
}

/// The centres of `rooms`, in order, leaving out those equal to `a` or `b`.
pub open spec fn centres_except(rooms: Seq<Room>, a: Coord, b: Coord) -> Seq<Coord>
    decreases rooms.len(),
{
    if rooms.len() == 0 {
        Seq::empty()
    } else {
        let prev = centres_except(rooms.drop_last(), a, b);
        let c = rect_centre(rooms.last().rect);
        if c != a && c != b {
            prev.push(c)
        } else {
            prev
        }
    }
}

/// The squared distance between two cells.
pub open spec fn distance2(a: Coord, b: Coord) -> int {
    magnitude2_spec(Coord { x: (a.x - b.x) as i32, y: (a.y - b.y) as i32 })
}

/// The cell is inside the `j`-th room, or on an L-shaped path from its centre to the centre of
/// a room placed before it.
pub open spec fn explained_by(rooms: Seq<Room>, j: int, c: Coord) -> bool {
    &&& 0 <= j < rooms.len()
    &&& (rect_interior(rooms[j].rect, c) || on_path_to_some_room(
        rooms.take(j),
        rect_centre(rooms[j].rect),
        c,
    ))
}

/// Every non-wall cell of `map` is inside one of the rooms, or on an L-shaped path from the
/// centre of a room to the centre of a room placed before it.
pub open spec fn non_walls_explained<T>(map: Grid<T>, rooms: Seq<Room>, wall: T) -> bool {
    forall|c: Coord|
        #![trigger map.at(c)]
        map.contains(c) && map.at(c) != wall ==> exists|j: int| #[trigger] explained_by(rooms, j, c)
}

/// The level was generated from the sequence of rooms `rooms`, placed in that order.
pub open spec fn generated_from_rooms(
    level: RoomsAndCorridorsLevel,
    rooms: Seq<Room>,
    size: Size,
) -> bool {
    &&& rooms.len() > 0
    &&& forall|i: int|
        0 <= i < rooms.len() ==> {
            let r = #[trigger] rooms[i].rect;
            &&& rect_fits(r, size)
            &&& 5 <= r.size.width < 11
            &&& 5 <= r.size.height < 9
        }
    &&& forall|i: int, j: int, c: Coord|
        0 <= i < j < rooms.len() && #[trigger] rect_contains(rooms[j].rect, c) ==> !#[trigger] rect_interior(
            rooms[i].rect,
            c,
        )
    &&& forall|i: int, c: Coord|
        0 <= i < rooms.len() && #[trigger] rect_interior(rooms[i].rect, c) ==> level.map.at(c)
            != RoomsAndCorridorsCell::Wall
    &&& non_walls_explained(level.map, rooms, RoomsAndCorridorsCell::Wall)
    &&& exists|k: int| 0 <= k < rooms.len() && level.player_spawn == rect_centre(#[trigger] rooms[k].rect)
    &&& exists|k: int|
        0 <= k < rooms.len() && level.destination == rect_centre(#[trigger] rooms[k].rect) && forall|
            i: int,
        |
            0 <= i < rooms.len() ==> (if i <= k {
                distance2(rect_centre(#[trigger] rooms[i].rect), level.player_spawn) <= distance2(
                    level.destination,
                    level.player_spawn,
                )
            } else {
                distance2(rect_centre(rooms[i].rect), level.player_spawn) < distance2(
                    level.destination,
                    level.player_spawn,
                )
            })
    &&& level.other_room_centres@ == centres_except(rooms, level.player_spawn, level.destination)
    &&& rooms_joined(non_wall_set(level.map), rooms)
    &&& level.attempts@.len() == 50
    &&& rooms == kept_rooms(level.attempts@)
    &&& forall|i: int| 0 <= i < 50 ==> drawable_room(#[trigger] level.attempts@[i].0, size)
    &&& forall|i: int|
        0 <= i < 50 && !(#[trigger] level.attempts@[i]).1 ==> exists|c: Coord|
            rect_contains(level.attempts@[i].0.rect, c) && #[trigger] non_wall_set(level.map)(c)
}

/// The cells of `map` that are not walls.
pub open spec fn non_wall_set(map: Grid<RoomsAndCorridorsCell>) -> spec_fn(Coord) -> bool {
    |c: Coord| map.contains(c) && map.at(c) != RoomsAndCorridorsCell::Wall
}

proof fn lemma_small_size_count(size: Size)
    requires
        size.width <= 46340,
        size.height <= 46340,
    ensures
        size.width * size.height <= 46340 * 46340,
{
    assert(size.width * size.height <= 46340 * 46340) by (nonlinear_arith)
        requires
            size.width <= 46340,
            size.height <= 46340,
    ;
}

/// The squared distance between two cells of an area no larger than 46340 by 46340.
fn distance2_exec(a: Coord, b: Coord) -> (d: u32)
    requires
        0 <= a.x <= 46340,
        0 <= a.y <= 46340,
        0 <= b.x <= 46340,
        0 <= b.y <= 46340,
    ensures
        d == distance2(a, b),
{
    let delta = a.minus(b);
    let ghost dx = delta.x as int;
    let ghost dy = delta.y as int;
    assert(dx * dx <= 46340 * 46340 && dy * dy <= 46340 * 46340 && dx * dx >= 0 && dy * dy >= 0)
        by (nonlinear_arith)
        requires
            -46340 <= dx <= 46340,
            -46340 <= dy <= 46340,
    ;
    delta.magnitude2()
}

/// The level cell for a cell of the placement map.
fn level_cell(floor_or_wall: &FloorOrWall) -> (r: RoomsAndCorridorsCell)
    ensures
        (r == RoomsAndCorridorsCell::Floor) == (*floor_or_wall == FloorOrWall::Floor),
        (r == RoomsAndCorridorsCell::Wall) == (*floor_or_wall == FloorOrWall::Wall),
{
    match floor_or_wall {
        FloorOrWall::Floor => RoomsAndCorridorsCell::Floor,
        FloorOrWall::Wall => RoomsAndCorridorsCell::Wall,
    }
}

impl RoomsAndCorridorsLevel {
    /// Randomly generates a level of rooms and corridors: fifty attempts to place a room of
    /// 5x5 to 10x8 cells, each placed room joined to up to two earlier rooms, half of the door
    /// candidates turned into doors, the player spawning in the centre of a random room and the
    /// destination in the centre of the room furthest from it.
    pub fn generate(size: Size, rng: &mut Isaac64Rng) -> (level: RoomsAndCorridorsLevel)
        requires
            11 <= size.width <= 46340,
            9 <= size.height <= 46340,
        ensures
            level.map.wf(),
            level.map.spec_size() == size,
            exists|rooms: Seq<Room>| #[trigger] generated_from_rooms(level, rooms, size),
    {
        proof {
            lemma_small_size_count(size);
        }
        let min_room_size = Size::new(5, 5);
        let max_room_size = Size::new(11, 9);
        let mut room_placement = RoomPlacement::new(size);
        let ghost mut att: Seq<(Room, bool)> = Seq::empty();
        let mut attempt: usize = 0;
        while attempt < 50
            invariant
                attempt <= 50,
                att.len() == attempt,
                room_placement.rooms@ == kept_rooms(att),
                forall|i: int| 0 <= i < attempt ==> drawable_room(#[trigger] att[i].0, size),
                forall|i: int|
                    0 <= i < attempt && !(#[trigger] att[i]).1 ==> exists|c: Coord|
                        rect_contains(att[i].0.rect, c) && #[trigger] floor_set(room_placement.map)(c),
                11 <= size.width <= 46340,
                9 <= size.height <= 46340,
                min_room_size == (Size { width: 5, height: 5 }),
                max_room_size == (Size { width: 11, height: 9 }),
                room_placement.wf(size),
                attempt > 0 ==> room_placement.rooms@.len() > 0,
                attempt == 0 ==> forall|c: Coord|
                    room_placement.map.contains(c) ==> !is_floor(room_placement.map, c),
                forall|i: int|
                    0 <= i < room_placement.rooms@.len() ==> {
                        let r = #[trigger] room_placement.rooms@[i].rect;
                        &&& 5 <= r.size.width < 11
                        &&& 5 <= r.size.height < 9
                    },
                non_walls_explained(room_placement.map, room_placement.rooms@, FloorOrWall::Wall),
                rooms_joined(floor_set(room_placement.map), room_placement.rooms@),
            decreases 50 - attempt,
        {
            let new_room = Room { rect: Rect::random(size, min_room_size, max_room_size, rng) };
            let ghost before = room_placement;
            room_placement.try_add_room(new_room, rng);
            proof {
                let overlap = exists|c: Coord| #[trigger] rect_contains(new_room.rect, c) && is_floor(before.map, c);
                let att2 = att.push((new_room, !overlap));
                assert(att2.drop_last() =~= att);
                assert(drawable_room(new_room, size)) by {
                    lemma_rect_fits_inner(new_room.rect, size);
                }
                assert forall|i: int|
                    0 <= i < attempt + 1 && !(#[trigger] att2[i]).1 implies exists|c: Coord|
                        rect_contains(att2[i].0.rect, c) && #[trigger] floor_set(room_placement.map)(c) by {
                    if i < attempt {
                        assert(att2[i] == att[i]);
                        let c = choose|c: Coord| rect_contains(att[i].0.rect, c) && #[trigger] floor_set(before.map)(c);
                        assert(room_placement.map.contains(c));
                        assert(floor_set(room_placement.map)(c));
                    } else {
                        let c = choose|c: Coord| #[trigger] rect_contains(new_room.rect, c) && is_floor(before.map, c);
                        lemma_rect_fits_inner(new_room.rect, size);
                        assert(room_placement.map.contains(c));
                        assert(floor_set(room_placement.map)(c));
                    }
                }
                att = att2;
            }
            proof {
                let rooms0 = before.rooms@;
                let rooms1 = room_placement.rooms@;
                assert forall|c: Coord| #[trigger] floor_set(before.map)(c) implies floor_set(room_placement.map)(c) by {
                    assert(room_placement.map.contains(c));
                }
                assert forall|j: int| 0 <= j < rooms1.len() implies #[trigger] room_joined_somehow(
                    floor_set(room_placement.map),
                    rooms1,
                    j,
                ) by {
                    if j < rooms0.len() {
                        assert(room_joined_somehow(floor_set(before.map), rooms0, j));
                        let (idx, cors) = choose|idx: Seq<int>, cors: Seq<Seq<Coord>>|
                            #[trigger] room_joined(floor_set(before.map), rooms0, j, idx, cors);
                        if rooms1.len() != rooms0.len() {
                            assert(rooms1 == rooms0.push(new_room));
                        }
                        lemma_room_joined_grows(floor_set(before.map), floor_set(room_placement.map), rooms0, rooms1, j, idx, cors);
                    }
                }
                if attempt == 0 {
                    assert(!exists|c: Coord| #[trigger] rect_contains(new_room.rect, c) && is_floor(before.map, c)) by {
                        lemma_rect_fits_inner(new_room.rect, size);
                    }
                }
                assert forall|c: Coord|
                    #![trigger room_placement.map.at(c)]
                    room_placement.map.contains(c) && room_placement.map.at(c) != FloorOrWall::Wall
                        implies exists|j: int| #[trigger] explained_by(rooms1, j, c) by {
                    if rooms1.len() == rooms0.len() {
                        assert(rooms1 == rooms0);
                        assert(before.map.at(c) == room_placement.map.at(c));
                    } else if is_floor(before.map, c) {
                        assert(rooms1 == rooms0.push(new_room));
                        assert(before.map.contains(c));
                        assert(before.map.at(c) != FloorOrWall::Wall);
                        let j = choose|j: int| #[trigger] explained_by(rooms0, j, c);
                        assert(rooms1[j] == rooms0[j]);
                        assert(rooms1.take(j) =~= rooms0.take(j));
                        assert(explained_by(rooms1, j, c));
                    } else {
                        assert(rooms1 == rooms0.push(new_room));
                        let n = rooms0.len() as int;
                        assert(rooms1[n] == new_room);
                        assert(rooms1.take(n) =~= rooms0);
                        assert(explained_by(rooms1, n, c));
                    }
                }
            }
            attempt = attempt + 1;
        }
        let map = room_placement.map.map_ref(level_cell);
        let ghost map0 = map;
        let mut map = map;
        let mut k: usize = 0;
        while k < room_placement.door_candidates.len()
            invariant
                map.wf(),
                map.spec_size() == size,
                room_placement.wf(size),
                map0.wf(),
                map0.spec_size() == size,
                forall|c: Coord|
                    #![trigger map.at(c)]
                    map.contains(c) ==> (map.at(c) == RoomsAndCorridorsCell::Wall) == (map0.at(c)
                        == RoomsAndCorridorsCell::Wall) || room_placement.door_candidates@.contains(c),
                forall|c: Coord|
                    #![trigger map0.at(c)]
                    map0.contains(c) ==> (map0.at(c) == RoomsAndCorridorsCell::Wall) == (
                    room_placement.map.at(c) == FloorOrWall::Wall),
                forall|c: Coord|
                    #![trigger map.at(c)]
                    map.contains(c) && map.at(c) == RoomsAndCorridorsCell::Wall ==> map0.at(c)
                        == RoomsAndCorridorsCell::Wall,
            decreases room_placement.door_candidates@.len() - k,
        {
            let c = room_placement.door_candidates[k];
            if gen_bool(rng) {
                map.set(c, RoomsAndCorridorsCell::Door);
            }
            k = k + 1;
        }
        let rooms = &room_placement.rooms;
        let spawn_room = match choose_one(rng, rooms) {
            Some(room) => room,
            None => {
                proof {
                    assert(false);
                }
                rooms[0]
            },
        };
        let ghost spawn_index = choose|k: int| 0 <= k < rooms@.len() && rooms@[k] == spawn_room;
        proof {
            lemma_rect_fits_inner(rooms@[spawn_index].rect, size);
        }
        let player_spawn = spawn_room.rect.centre();
        let n = rooms.len();
        let mut best = rooms[0].rect.centre();
        proof {
            lemma_rect_fits_inner(rooms@[0].rect, size);
        }
        let mut best_key = distance2_exec(best, player_spawn);
        let ghost mut best_index: int = 0;
        let mut i: usize = 1;
        while i < n
            invariant
                n == rooms@.len(),
                1 <= i <= n,
                rooms_consistent(rooms@, room_placement.map, size),
                size.width <= 46340,
                size.height <= 46340,
                0 <= player_spawn.x <= 46340,
                0 <= player_spawn.y <= 46340,
                0 <= best_index < i,
                best == rect_centre(rooms@[best_index].rect),
                best_key == distance2(best, player_spawn),
                forall|j: int|
                    0 <= j < i ==> (if j <= best_index {
                        distance2(rect_centre(#[trigger] rooms@[j].rect), player_spawn) <= best_key
                    } else {
                        distance2(rect_centre(rooms@[j].rect), player_spawn) < best_key
                    }),
            decreases n - i,
        {
            proof {
                lemma_rect_fits_inner(rooms@[i as int].rect, size);
            }
            let c = rooms[i].rect.centre();
            let key = distance2_exec(c, player_spawn);
            if key >= best_key {
                best = c;
                best_key = key;
                proof {
                    best_index = i as int;
                }
            }
            i = i + 1;
        }
        let destination = best;
        let mut other_room_centres: Vec<Coord> = Vec::new();
        let mut i: usize = 0;
        while i < n
            invariant
                n == rooms@.len(),
                i <= n,
                rooms_consistent(rooms@, room_placement.map, size),
                other_room_centres@ == centres_except(rooms@.take(i as int), player_spawn, destination),
            decreases n - i,
        {
            proof {
                lemma_rect_fits_inner(rooms@[i as int].rect, size);
                assert(rooms@.take(i + 1).drop_last() =~= rooms@.take(i as int));
            }
            let c = rooms[i].rect.centre();
            if c != player_spawn && c != destination {
                other_room_centres.push(c);
            }
            i = i + 1;
        }
        proof {
            assert(rooms@.take(n as int) =~= rooms@);
        }
        let level = RoomsAndCorridorsLevel { map, player_spawn, destination, other_room_centres, attempts: Ghost(att) };
        proof {
            let rs = rooms@;
            assert(rs.len() > 0);
            assert(forall|i: int, c: Coord|
                0 <= i < rs.len() && #[trigger] rect_interior(rs[i].rect, c) ==> level.map.at(c)
                    != RoomsAndCorridorsCell::Wall) by {
                assert forall|i: int, c: Coord|
                    0 <= i < rs.len() && #[trigger] rect_interior(rs[i].rect, c) implies level.map.at(c)
                        != RoomsAndCorridorsCell::Wall by {
                    lemma_rect_fits_inner(rs[i].rect, size);
                    assert(is_floor(room_placement.map, c));
                    assert(map0.at(c) != RoomsAndCorridorsCell::Wall);
                }
            }
            assert(non_walls_explained(level.map, rs, RoomsAndCorridorsCell::Wall)) by {
                assert forall|c: Coord|
                    #![trigger level.map.at(c)]
                    level.map.contains(c) && level.map.at(c) != RoomsAndCorridorsCell::Wall implies exists|j: int|
                        #[trigger] explained_by(rs, j, c) by {
                    if !room_placement.door_candidates@.contains(c) {
                        assert(map0.at(c) != RoomsAndCorridorsCell::Wall);
                    } else {
                        let t = choose|t: int| 0 <= t < room_placement.door_candidates@.len() && room_placement.door_candidates@[t] == c;
                        assert(inner(size, room_placement.door_candidates@[t]));
                    }
                    assert(room_placement.map.at(c) != FloorOrWall::Wall);
                }
            }
            assert(exists|k: int| 0 <= k < rs.len() && level.player_spawn == rect_centre(#[trigger] rs[k].rect)) by {
                assert(level.player_spawn == rect_centre(rs[spawn_index].rect));
            }
            assert(level.other_room_centres@ == centres_except(rs, level.player_spawn, level.destination));
            assert forall|c: Coord| #[trigger] floor_set(room_placement.map)(c) implies non_wall_set(level.map)(c) by {
                assert(map0.at(c) != RoomsAndCorridorsCell::Wall);
            }
            assert forall|j: int| 0 <= j < rs.len() implies #[trigger] room_joined_somehow(non_wall_set(level.map), rs, j) by {
                assert(room_joined_somehow(floor_set(room_placement.map), rs, j));
                let (idx, cors) = choose|idx: Seq<int>, cors: Seq<Seq<Coord>>|
                    #[trigger] room_joined(floor_set(room_placement.map), rs, j, idx, cors);
                lemma_room_joined_grows(floor_set(room_placement.map), non_wall_set(level.map), rs, rs, j, idx, cors);
            }
            assert forall|i: int|
                0 <= i < 50 && !(#[trigger] att[i]).1 implies exists|c: Coord|
                    rect_contains(att[i].0.rect, c) && #[trigger] non_wall_set(level.map)(c) by {
                let c = choose|c: Coord| rect_contains(att[i].0.rect, c) && #[trigger] floor_set(room_placement.map)(c);
                assert(floor_set(room_placement.map)(c));
                assert(non_wall_set(level.map)(c));
            }
            assert(generated_from_rooms(level, rooms@, size));
        }
        level
    }
}

} // verus!
