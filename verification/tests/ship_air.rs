use boat_journey::air::{Air, AirCell, MAX_AIR};
use boat_journey::game::Entity;
use boat_journey::geometry::{CardinalDirection, Coord, Size};
use boat_journey::grid::Grid;

const CREW: Entity = Entity { index: 1, generation: 0 };
const CRATE: Entity = Entity { index: 2, generation: 0 };

fn cell(floor: bool, feature: Option<bool>) -> AirCell {
    AirCell { floor, feature, character: None, item: None }
}

/// A corridor: space, a crew member standing on bare floor, an open door, a closed door, and
/// floor beyond it.
fn corridor() -> Grid<AirCell> {
    let mut g = Grid::new_copy(Size::new(5, 1), cell(true, None));
    g.set(Coord::new(0, 0), cell(false, None));
    g.set(Coord::new(1, 0), AirCell { floor: true, feature: None, character: Some(CREW), item: Some(CRATE) });
    g.set(Coord::new(2, 0), cell(true, Some(false)));
    g.set(Coord::new(3, 0), cell(true, Some(true)));
    g
}

fn pressures(air: &Air) -> Vec<u8> {
    (0..5).map(|x| *air.pressure.get_checked(Coord::new(x, 0))).collect()
}

#[test]
fn fresh_air_is_full_and_still() {
    let air = Air::new(Size::new(5, 1));
    assert_eq!(pressures(&air), vec![MAX_AIR; 5]);
    assert!(air.has_air(Coord::new(2, 0)));
    assert!(!air.has_flow(Coord::new(2, 0)));
    assert!(!air.has_air(Coord::new(7, 0)));
}

#[test]
fn air_vents_through_open_features_only() {
    let mut air = Air::new(Size::new(5, 1));
    air.init(&corridor());
    // bare floor does not vent: only the cell without floor empties
    assert_eq!(pressures(&air), vec![0, 6, 6, 6, 6]);
    let mut open = corridor();
    open.set(Coord::new(1, 0), cell(true, Some(false)));
    let mut air = Air::new(Size::new(5, 1));
    air.init(&open);
    assert_eq!(pressures(&air), vec![0, 0, 0, 6, 6]);
    assert!(!air.has_air(Coord::new(1, 0)));
}

#[test]
fn air_flows_out_and_pushes_the_crew() {
    let mut air = Air::new(Size::new(5, 1));
    let moved = air.update(&corridor());
    let flows: Vec<Option<u32>> = (0..5).map(|x| *air.flow.get_checked(Coord::new(x, 0))).collect();
    assert_eq!(flows, vec![Some(0), Some(1), Some(2), None, None]);
    assert_eq!(pressures(&air), vec![6, 5, 5, 6, 6]);
    assert_eq!(moved, vec![(CREW, CardinalDirection::West), (CRATE, CardinalDirection::West)]);
    assert!(air.has_flow(Coord::new(2, 0)));
    assert!(!air.has_flow(Coord::new(0, 0)));
    assert!(!air.has_flow(Coord::new(4, 0)));
}

#[test]
fn nothing_is_pushed_where_the_air_is_gone() {
    let mut air = Air::new(Size::new(5, 1));
    air.init(&corridor());
    air.pressure.set(Coord::new(1, 0), 0);
    let moved = air.update(&corridor());
    assert!(moved.is_empty());
    assert_eq!(pressures(&air), vec![0, 0, 5, 6, 6]);
}
