use boat_journey::geometry::{Coord, Size};
use boat_journey::grid::Grid;
use boat_journey::terrain::WorldCell3;
use boat_journey::water::WaterType;
use boat_journey::world3::{all_water, blast_sparing_river, set_cells_inside};

#[test]
fn cells_outside_the_grid_are_left_out() {
    let mut g = Grid::new_copy(Size::new(3, 3), 0u8);
    set_cells_inside(&mut g, &vec![Coord::new(1, 1), Coord::new(5, 5), Coord::new(-1, 0)], 7);
    assert_eq!(*g.get_checked(Coord::new(1, 1)), 7);
    assert_eq!(*g.get_checked(Coord::new(0, 0)), 0);
}

#[test]
fn islands_need_water_all_round() {
    let mut g = Grid::new_copy(Size::new(3, 3), WorldCell3::Water(WaterType::Ocean));
    let cells = vec![Coord::new(0, 0), Coord::new(2, 2)];
    assert!(all_water(&g, &cells));
    assert!(!all_water(&g, &vec![Coord::new(0, 0), Coord::new(3, 0)]));
    g.set(Coord::new(2, 2), WorldCell3::Ground);
    assert!(!all_water(&g, &cells));
}

#[test]
fn blasts_spare_the_river() {
    let mut g = Grid::new_copy(Size::new(3, 1), WorldCell3::Wall);
    g.set(Coord::new(1, 0), WorldCell3::Water(WaterType::River));
    g.set(Coord::new(2, 0), WorldCell3::Water(WaterType::Ocean));
    blast_sparing_river(&mut g, &vec![Coord::new(0, 0), Coord::new(1, 0), Coord::new(2, 0), Coord::new(0, 0)]);
    assert_eq!(*g.get_checked(Coord::new(0, 0)), WorldCell3::TownGround);
    assert_eq!(*g.get_checked(Coord::new(1, 0)), WorldCell3::Water(WaterType::River));
    assert_eq!(*g.get_checked(Coord::new(2, 0)), WorldCell3::TownGround);
}
