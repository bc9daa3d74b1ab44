use boat_journey::dungeon::Dungeons;
use boat_journey::geometry::Coord;

#[test]
fn going_down_and_back_up_returns_to_the_stairs() {
    let mut d: Dungeons<String> = Dungeons {
        levels: vec![Some(("first".to_string(), Coord::new(1, 1))), Some(("second".to_string(), Coord::new(2, 3)))],
        trip: None,
    };
    assert!(!d.is_in_dungeon());
    let (below, arrival) = d.enter(1, "above".to_string(), Coord::new(10, 20));
    assert_eq!(below, "second");
    assert_eq!(arrival, Coord::new(2, 3));
    assert!(d.is_in_dungeon());
    assert!(d.levels[1].is_none());
    let (above, back) = d.exit("second, explored".to_string());
    assert_eq!(above, "above");
    assert_eq!(back, Coord::new(10, 20));
    assert!(!d.is_in_dungeon());
    assert_eq!(d.levels[1], Some(("second, explored".to_string(), Coord::new(2, 3))));
    assert_eq!(d.levels[0], Some(("first".to_string(), Coord::new(1, 1))));
}
