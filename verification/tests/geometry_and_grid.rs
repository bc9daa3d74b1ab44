use boat_journey::geometry::{Axis, CardinalDirection, Coord, Direction, Size};
use boat_journey::grid::Grid;

#[test]
fn coord_arithmetic() {
    let a = Coord::new(3, -4);
    let b = Coord::new(-1, 2);
    assert_eq!(a.plus(b), Coord { x: 2, y: -2 });
    assert_eq!(a.minus(b), Coord { x: 4, y: -6 });
    assert_eq!(a.magnitude2(), 25);
    assert_eq!(a.get(Axis::X), 3);
    assert_eq!(a.get(Axis::Y), -4);
    assert_eq!(Coord::new_axis(7, 9, Axis::Y), Coord { x: 9, y: 7 });
    assert_eq!(Axis::X.other(), Axis::Y);
}

#[test]
fn size_edges() {
    let s = Size::new(3, 5);
    assert_eq!((s.width(), s.height()), (3, 5));
    assert_eq!(s.get(Axis::Y), 5);
    assert!(s.is_on_edge(Coord::new(0, 0)));
    assert!(s.is_on_edge(Coord::new(2, 0)));
    assert!(s.is_on_edge(Coord::new(0, 3)));
    assert!(s.is_on_edge(Coord::new(1, 4)));
    assert!(!s.is_on_edge(Coord::new(1, 2)));
    assert!(!s.is_on_edge(Coord::new(1, 5)));
}

#[test]
fn directions() {
    let cards = CardinalDirection::all();
    assert_eq!(cards.len(), 4);
    assert_eq!(CardinalDirection::North.coord(), Coord::new(0, -1));
    assert_eq!(CardinalDirection::East.coord(), Coord::new(1, 0));
    let dirs = Direction::all();
    assert_eq!(dirs.len(), 8);
    assert_eq!(Direction::SouthWest.coord(), Coord::new(-1, 1));
    let sum = dirs.iter().fold(Coord::new(0, 0), |acc, d| acc.plus(d.coord()));
    assert_eq!(sum, Coord::new(0, 0));
}

#[test]
fn grid_get_and_set() {
    let mut g = Grid::new_copy(Size::new(4, 3), 0u8);
    assert_eq!(g.size(), Size::new(4, 3));
    assert_eq!((g.width(), g.height()), (4, 3));
    assert_eq!(g.count(), 12);
    assert_eq!(g.get(Coord::new(3, 2)), Some(&0));
    assert_eq!(g.get(Coord::new(4, 0)), None);
    assert_eq!(g.get(Coord::new(0, -1)), None);
    g.set(Coord::new(1, 2), 9);
    assert_eq!(*g.get_checked(Coord::new(1, 2)), 9);
    assert_eq!(*g.get_checked(Coord::new(2, 1)), 0);
    assert!(g.is_valid(Coord::new(3, 2)));
    assert!(!g.is_valid(Coord::new(3, 3)));
}

#[test]
fn grid_row_major_order() {
    let g = Grid::new_copy(Size::new(4, 3), ());
    assert_eq!(g.coord_of_index(0), Coord::new(0, 0));
    assert_eq!(g.coord_of_index(5), Coord::new(1, 1));
    assert_eq!(g.coord_of_index(11), Coord::new(3, 2));
}

#[test]
fn grid_map_and_copy() {
    let mut g = Grid::new_copy(Size::new(2, 2), 1u32);
    g.set(Coord::new(1, 1), 5);
    let doubled = g.map_ref(|v: &u32| *v * 2);
    assert_eq!(*doubled.get_checked(Coord::new(1, 1)), 10);
    assert_eq!(*doubled.get_checked(Coord::new(0, 1)), 2);
    let c = g.copy();
    assert_eq!(*c.get_checked(Coord::new(1, 1)), 5);
}
