use boat_journey::geometry::{Coord, Size};
use boat_journey::terrain::{Blob, Spec};
use boat_journey::water::{WaterType, WorldCell2};
use boat_journey::world2::make_world_grid2;

fn blob(border: Vec<Coord>, inside: Vec<Coord>) -> Blob {
    Blob { border, inside }
}

#[test]
fn the_second_grid_lays_river_lake_towns_and_ocean() {
    let spec = Spec { size: Size::new(10, 10), num_graves: 0 };
    let river = vec![Coord::new(1, 1), Coord::new(2, 1)];
    let towns_at = vec![Coord::new(3, 3), Coord::new(4, 4)];
    let lake = blob(vec![], vec![Coord::new(5, 5)]);
    let towns = vec![
        blob(vec![], vec![Coord::new(6, 6)]),
        blob(
            vec![Coord::new(100, 203), Coord::new(120, 203), Coord::new(130, 203)],
            vec![Coord::new(103, 203)],
        ),
    ];
    let ocean = blob(vec![], vec![Coord::new(199, 0), Coord::new(500, 0)]);
    let w = make_world_grid2(&spec, &river, &towns_at, &lake, &towns, &ocean).expect("the river stays in the grid");
    let river_water = WorldCell2::Water(WaterType::River);
    assert_eq!(w.grid.size(), Size::new(200, 430));
    assert_eq!(*w.grid.get_checked(Coord::new(103, 203)), river_water);
    assert_eq!(*w.grid.get_checked(Coord::new(70, 209)), river_water);
    assert_eq!(*w.grid.get_checked(Coord::new(70, 210)), WorldCell2::Land);
    assert_eq!(*w.grid.get_checked(Coord::new(0, 0)), WorldCell2::Land);
    assert_eq!(*w.grid.get_checked(Coord::new(5, 5)), river_water);
    assert_eq!(*w.grid.get_checked(Coord::new(6, 6)), river_water);
    assert_eq!(*w.grid.get_checked(Coord::new(199, 0)), WorldCell2::Water(WaterType::Ocean));
    assert_eq!(w.spawn, Coord::new(70, 203));
    assert_eq!(w.lake_centre, Coord::new(70, 203));
    assert_eq!(w.swamp_centre, Coord::new(109, 209));
    assert_eq!(w.city_centre, Coord::new(112, 212));
    assert_eq!(w.ocean_x_ofset, 150);
    assert_eq!(w.gate, vec![Coord::new(100, 203), Coord::new(120, 203)]);
    assert_eq!(w.city_blob.inside, vec![Coord::new(103, 203)]);
}

#[test]
fn a_city_the_river_misses_gives_no_grid() {
    let spec = Spec { size: Size::new(10, 10), num_graves: 0 };
    let river = vec![Coord::new(1, 1)];
    let towns_at = vec![Coord::new(3, 3), Coord::new(4, 4)];
    let empty = blob(vec![], vec![]);
    let towns = vec![empty.clone(), empty.clone()];
    assert!(make_world_grid2(&spec, &river, &towns_at, &empty, &towns, &empty).is_none());
}
