//! Integer coordinates, sizes, axes and compass directions on a 2D grid.
use vstd::prelude::*;

verus! {

/// A position on a 2D grid. `x` grows to the east and `y` grows to the south.
#[derive(Clone, Copy, Debug, PartialEq, Eq, Hash, Structural)]
pub struct Coord {
    pub x: i32,
    pub y: i32,
}

/// The dimensions of a rectangular area. Neither dimension exceeds `i32::MAX`.
#[derive(Clone, Copy, Debug, PartialEq, Eq, Hash, Structural)]
pub struct Size {
    pub width: u32,
    pub height: u32,
}

/// One of the two axes of the grid.
#[derive(Clone, Copy, Debug, PartialEq, Eq, Hash, Structural)]
pub enum Axis {
    X,
    Y,
}

/// The four compass directions.
#[derive(Clone, Copy, Debug, PartialEq, Eq, Hash, Structural)]
pub enum CardinalDirection {
    North,
    East,
    South,
    West,
}

/// The eight compass directions.
#[derive(Clone, Copy, Debug, PartialEq, Eq, Hash, Structural)]
pub enum Direction {
    North,
    NorthEast,
    East,
    SouthEast,
    South,
    SouthWest,
    West,
    NorthWest,
}

/// `v` fits in an `i32`.
pub open spec fn in_i32(v: int) -> bool {
    i32::MIN <= v <= i32::MAX
}

/// Both components of `a + b` fit in an `i32`.
pub open spec fn can_add(a: Coord, b: Coord) -> bool {
    in_i32(a.x + b.x) && in_i32(a.y + b.y)
}

/// Both components of `a - b` fit in an `i32`.
pub open spec fn can_sub(a: Coord, b: Coord) -> bool {
    in_i32(a.x - b.x) && in_i32(a.y - b.y)
}

pub open spec fn coord_plus(a: Coord, b: Coord) -> Coord {
    Coord { x: (a.x + b.x) as i32, y: (a.y + b.y) as i32 }
}

pub open spec fn coord_minus(a: Coord, b: Coord) -> Coord {
    Coord { x: (a.x - b.x) as i32, y: (a.y - b.y) as i32 }
}

/// The squared euclidean length of a vector, as an unbounded integer.
pub open spec fn magnitude2_spec(c: Coord) -> int {
    c.x * c.x + c.y * c.y
}

/// `c` is a cell of a rectangle of size `s` whose top-left cell is the origin.
pub open spec fn size_contains(s: Size, c: Coord) -> bool {
    0 <= c.x < s.width && 0 <= c.y < s.height
}

/// `c` lies on the border of a rectangle of size `s` whose top-left cell is the origin.
pub open spec fn size_is_on_edge(s: Size, c: Coord) -> bool {
    ((c.x == 0 || c.x == s.width - 1) && 0 <= c.y < s.height) || ((c.y == 0 || c.y == s.height
        - 1) && 0 <= c.x < s.width)
}

/// The unit vector of a cardinal direction.
pub open spec fn cardinal_delta(d: CardinalDirection) -> Coord {
    match d {
        CardinalDirection::North => Coord { x: 0i32, y: -1i32 },
        CardinalDirection::East => Coord { x: 1i32, y: 0i32 },
        CardinalDirection::South => Coord { x: 0i32, y: 1i32 },
        CardinalDirection::West => Coord { x: -1i32, y: 0i32 },
    }
}

/// The unit vector of a direction.
pub open spec fn direction_delta(d: Direction) -> Coord {
    match d {
        Direction::North => Coord { x: 0i32, y: -1i32 },
        Direction::NorthEast => Coord { x: 1i32, y: -1i32 },
        Direction::East => Coord { x: 1i32, y: 0i32 },
        Direction::SouthEast => Coord { x: 1i32, y: 1i32 },
        Direction::South => Coord { x: 0i32, y: 1i32 },
        Direction::SouthWest => Coord { x: -1i32, y: 1i32 },
        Direction::West => Coord { x: -1i32, y: 0i32 },
        Direction::NorthWest => Coord { x: -1i32, y: -1i32 },
    }
}

/// `b` is one of the four cells that share a side with `a`.
pub open spec fn is_cardinal_neighbour(a: Coord, b: Coord) -> bool {
    (a.x == b.x && (a.y - b.y == 1 || b.y - a.y == 1)) || (a.y == b.y && (a.x - b.x == 1 || b.x
        - a.x == 1))
}

/// `b` is one of the eight cells that share a side or a corner with `a`.
pub open spec fn is_neighbour(a: Coord, b: Coord) -> bool {
    a != b && -1 <= a.x - b.x <= 1 && -1 <= a.y - b.y <= 1
}

/// The component of `c` along `axis`.
pub open spec fn axis_get(c: Coord, axis: Axis) -> int {
    match axis {
        Axis::X => c.x as int,
        Axis::Y => c.y as int,
    }
}

/// The coordinate whose component along `axis` is `this_axis` and whose other component is
/// `other_axis`.
pub open spec fn axis_coord(axis: Axis, this_axis: int, other_axis: int) -> Coord {
    match axis {
        Axis::X => Coord { x: this_axis as i32, y: other_axis as i32 },
        Axis::Y => Coord { x: other_axis as i32, y: this_axis as i32 },
    }
}

pub open spec fn other_axis(axis: Axis) -> Axis {
    match axis {
        Axis::X => Axis::Y,
        Axis::Y => Axis::X,
    }
}

/// The four cardinal directions in the order North, East, South, West.
pub open spec fn cardinal_directions() -> Seq<CardinalDirection> {
    seq![
        CardinalDirection::North,
        CardinalDirection::East,
        CardinalDirection::South,
        CardinalDirection::West,
    ]
}

/// The eight directions, clockwise from North.
pub open spec fn all_directions() -> Seq<Direction> {
    seq![
        Direction::North,
        Direction::NorthEast,
        Direction::East,
        Direction::SouthEast,
        Direction::South,
        Direction::SouthWest,
        Direction::West,
        Direction::NorthWest,
    ]
}

impl Coord {
    pub fn new(x: i32, y: i32) -> (c: Coord)
        ensures
            c.x == x,
            c.y == y,
    {
        Coord { x, y }
    }

    /// Component-wise sum.
    pub fn plus(self, other: Coord) -> (c: Coord)
        requires
            can_add(self, other),
        ensures
            c == coord_plus(self, other),
    {
        Coord { x: self.x + other.x, y: self.y + other.y }
    }

    /// Component-wise difference.
    pub fn minus(self, other: Coord) -> (c: Coord)
        requires
            can_sub(self, other),
        ensures
            c == coord_minus(self, other),
    {
        Coord { x: self.x - other.x, y: self.y - other.y }
    }

    /// The component along `axis`.
    pub fn get(self, axis: Axis) -> (v: i32)
        ensures
            v == axis_get(self, axis),
    {
        match axis {
            Axis::X => self.x,
            Axis::Y => self.y,
        }
    }

    /// A coordinate built from its component along `axis` and its other component.
    pub fn new_axis(this_axis: i32, other: i32, axis: Axis) -> (c: Coord)
        ensures
            c == axis_coord(axis, this_axis as int, other as int),
            axis_get(c, axis) == this_axis,
            axis_get(c, other_axis(axis)) == other,
    {
        match axis {
            Axis::X => Coord { x: this_axis, y: other },
            Axis::Y => Coord { x: other, y: this_axis },
        }
    }

    /// The squared length of this vector. Both squares and their sum must fit in a `u32`.
    pub fn magnitude2(self) -> (m: u32)
        requires
            0 <= magnitude2_spec(self) <= u32::MAX,
            -46340 <= self.x <= 46340,
            -46340 <= self.y <= 46340,
        ensures
            m == magnitude2_spec(self),
    {
        assert(0 <= self.x * self.x <= 46340 * 46340) by (nonlinear_arith)
            requires
                -46340 <= self.x <= 46340,
        ;
        assert(0 <= self.y * self.y <= 46340 * 46340) by (nonlinear_arith)
            requires
                -46340 <= self.y <= 46340,
        ;
        let xx = self.x * self.x;
        let yy = self.y * self.y;
        (xx as u32) + (yy as u32)
    }
}

impl Size {
    /// The size with the given dimensions, each of which must fit in an `i32`.
    pub fn new(width: u32, height: u32) -> (s: Size)
        requires
            width <= i32::MAX,
            height <= i32::MAX,
        ensures
            s.width == width,
            s.height == height,
    {
        Size { width, height }
    }

    pub fn width(self) -> (w: u32)
        ensures
            w == self.width,
    {
        self.width
    }

    pub fn height(self) -> (h: u32)
        ensures
            h == self.height,
    {
        self.height
    }

    /// The extent of this size along `axis`.
    pub fn get(self, axis: Axis) -> (v: u32)
        ensures
            v == (match axis {
                Axis::X => self.width,
                Axis::Y => self.height,
            }),
    {
        match axis {
            Axis::X => self.width,
            Axis::Y => self.height,
        }
    }

    /// True iff `c` lies on the border of a rectangle of this size with its top-left cell at the
    /// origin.
    pub fn is_on_edge(self, c: Coord) -> (b: bool)
        requires
            self.width <= i32::MAX,
            self.height <= i32::MAX,
        ensures
            b == size_is_on_edge(self, c),
    {
        let w = self.width as i32;
        let h = self.height as i32;
        ((c.x == 0 || c.x == w - 1) && c.y >= 0 && c.y < h) || ((c.y == 0 || c.y == h - 1) && c.x
            >= 0 && c.x < w)
    }
}

/// The border cells of a rectangle of size `s` whose top-left cell is the origin, in the order
/// in which `coord_2d` walks them: for a rectangle at least two cells wide and tall, clockwise
/// from the top-left corner, each corner once; for a single row or column, every cell in
/// row-major order.
pub open spec fn edge_sequence(s: Size) -> Seq<Coord> {
    let w = s.width as int;
    let h = s.height as int;
    if w == 0 || h == 0 {
        Seq::empty()
    } else if w == 1 || h == 1 {
        Seq::new((w * h) as nat, |i: int| Coord { x: (i % w) as i32, y: (i / w) as i32 })
    } else {
        Seq::new((w - 1) as nat, |i: int| Coord { x: i as i32, y: 0 })
            + Seq::new((h - 1) as nat, |i: int| Coord { x: (w - 1) as i32, y: i as i32 })
            + Seq::new((w - 1) as nat, |i: int| Coord { x: (w - 1 - i) as i32, y: (h - 1) as i32 })
            + Seq::new((h - 1) as nat, |i: int| Coord { x: 0, y: (h - 1 - i) as i32 })
    }
}

/// `coord_2d::UCoord::edge_iter`, collected: the border cells of a rectangle of size `s`, in
/// the order of `edge_sequence`. `UCoord::new` panics on a dimension above `i32::MAX`.
#[verifier::external_body]
pub(crate) fn edge_coords(s: Size) -> (v: Vec<Coord>)
    requires
        s.width <= i32::MAX,
        s.height <= i32::MAX,
    ensures
        v@ == edge_sequence(s),
{
    coord_2d::UCoord::new(s.width, s.height).edge_iter().map(|c| Coord { x: c.x, y: c.y }).collect()
}

impl Axis {
    /// The other axis.
    pub fn other(self) -> (a: Axis)
        ensures
            a == other_axis(self),
    {
        match self {
            Axis::X => Axis::Y,
            Axis::Y => Axis::X,
        }
    }
}

/// The direction pointing the other way.
pub open spec fn opposite_of(d: CardinalDirection) -> CardinalDirection {
    match d {
        CardinalDirection::North => CardinalDirection::South,
        CardinalDirection::East => CardinalDirection::West,
        CardinalDirection::South => CardinalDirection::North,
        CardinalDirection::West => CardinalDirection::East,
    }
}

impl CardinalDirection {
    /// The direction pointing the other way.
    pub fn opposite(self) -> (d: CardinalDirection)
        ensures
            d == opposite_of(self),
    {
        match self {
            CardinalDirection::North => CardinalDirection::South,
            CardinalDirection::East => CardinalDirection::West,
            CardinalDirection::South => CardinalDirection::North,
            CardinalDirection::West => CardinalDirection::East,
        }
    }

    /// The unit vector pointing in this direction.
    pub fn coord(self) -> (c: Coord)
        ensures
            c == cardinal_delta(self),
    {
        match self {
            CardinalDirection::North => Coord { x: 0, y: -1 },
            CardinalDirection::East => Coord { x: 1, y: 0 },
            CardinalDirection::South => Coord { x: 0, y: 1 },
            CardinalDirection::West => Coord { x: -1, y: 0 },
        }
    }

    /// All four cardinal directions, in the order North, East, South, West.
    pub fn all() -> (v: Vec<CardinalDirection>)
        ensures
            v@ == cardinal_directions(),
    {
        let v = vec![
            CardinalDirection::North,
            CardinalDirection::East,
            CardinalDirection::South,
            CardinalDirection::West,
        ];
        assert(v@ =~= cardinal_directions());
        v
    }
}

impl Direction {
    /// The unit vector pointing in this direction.
    pub fn coord(self) -> (c: Coord)
        ensures
            c == direction_delta(self),
    {
        match self {
            Direction::North => Coord { x: 0, y: -1 },
            Direction::NorthEast => Coord { x: 1, y: -1 },
            Direction::East => Coord { x: 1, y: 0 },
            Direction::SouthEast => Coord { x: 1, y: 1 },
            Direction::South => Coord { x: 0, y: 1 },
            Direction::SouthWest => Coord { x: -1, y: 1 },
            Direction::West => Coord { x: -1, y: 0 },
            Direction::NorthWest => Coord { x: -1, y: -1 },
        }
    }

    /// All eight directions, clockwise from North.
    pub fn all() -> (v: Vec<Direction>)
        ensures
            v@ == all_directions(),
    {
        let v = vec![
            Direction::North,
            Direction::NorthEast,
            Direction::East,
            Direction::SouthEast,
            Direction::South,
            Direction::SouthWest,
            Direction::West,
            Direction::NorthWest,
        ];
        assert(v@ =~= all_directions());
        v
    }
}

/// The neighbours reached by the four cardinal directions are exactly the cardinal neighbours.
pub proof fn lemma_cardinal_neighbours(a: Coord, b: Coord)
    requires
        in_i32(a.x - 1) && in_i32(a.x + 1) && in_i32(a.y - 1) && in_i32(a.y + 1),
    ensures
        is_cardinal_neighbour(a, b) <==> exists|i: int|
            0 <= i < 4 && b == #[trigger] coord_plus(a, cardinal_delta(cardinal_directions()[i])),
{
    if is_cardinal_neighbour(a, b) {
        if b.y == a.y - 1 {
            assert(b == coord_plus(a, cardinal_delta(cardinal_directions()[0])));
        } else if b.x == a.x + 1 {
            assert(b == coord_plus(a, cardinal_delta(cardinal_directions()[1])));
        } else if b.y == a.y + 1 {
            assert(b == coord_plus(a, cardinal_delta(cardinal_directions()[2])));
        } else {
            assert(b == coord_plus(a, cardinal_delta(cardinal_directions()[3])));
        }
    }
}

/// The neighbours reached by the eight directions are exactly the eight surrounding cells.
pub proof fn lemma_neighbours(a: Coord, b: Coord)
    requires
        in_i32(a.x - 1) && in_i32(a.x + 1) && in_i32(a.y - 1) && in_i32(a.y + 1),
    ensures
        is_neighbour(a, b) <==> exists|i: int|
            0 <= i < 8 && b == #[trigger] coord_plus(a, direction_delta(all_directions()[i])),
{
    if is_neighbour(a, b) {
        let dx = b.x - a.x;
        let dy = b.y - a.y;
        let i: int = if dx == 0 && dy == -1 {
            0
        } else if dx == 1 && dy == -1 {
            1
        } else if dx == 1 && dy == 0 {
            2
        } else if dx == 1 && dy == 1 {
            3
        } else if dx == 0 && dy == 1 {
            4
        } else if dx == -1 && dy == 1 {
            5
        } else if dx == -1 && dy == 0 {
            6
        } else {
            7
        };
        assert(b == coord_plus(a, direction_delta(all_directions()[i])));
    }
}

} // verus!
