use boat_journey::boat::{boat_shape, distinct_coords, boat_edge, Occupancy};
use boat_journey::data::Npc;
use boat_journey::game::{Entity, Game, MenuChoice};
use boat_journey::geometry::Coord;
use rand::SeedableRng;
use rand_isaac::Isaac64Rng;

fn hull_corners() -> Vec<Coord> {
    vec![
        Coord::new(0, -4),
        Coord::new(3, -1),
        Coord::new(3, 4),
        Coord::new(2, 6),
        Coord::new(0, 6),
        Coord::new(-2, 6),
        Coord::new(-3, 4),
        Coord::new(-3, -1),
    ]
}

fn empty(n: usize) -> Vec<Occupancy> {
    vec![Occupancy { foreign_floor: false, foreign_feature: false }; n]
}

#[test]
fn the_hull_shape_has_a_closed_deck() {
    let shape = boat_shape(&hull_corners()).expect("the hull closes its deck in");
    assert_eq!(shape.edge, distinct_coords(&boat_edge(&hull_corners())));
    assert!(shape.floor.contains(&Coord::new(0, 0)));
    for c in &shape.floor {
        assert!(!shape.edge.contains(c));
    }
}

#[test]
fn passengers_are_seated_alike_for_the_same_game() {
    let shape = boat_shape(&hull_corners()).unwrap();
    let mut game = Game::new(Isaac64Rng::seed_from_u64(5), false);
    game.passengers.push(Npc::Soldier);
    game.passengers.push(Npc::Thief);
    let edge_occ = empty(shape.edge.len());
    let floor_occ = empty(shape.floor.len());
    let a = game.try_rasterize_boat(&shape, &edge_occ, &floor_occ).expect("nothing is in the way");
    let b = game.try_rasterize_boat(&shape, &edge_occ, &floor_occ).expect("nothing is in the way");
    assert_eq!(a.seats, b.seats);
    assert_eq!(a.seats.len(), 2);
    assert_eq!(a.seats[0].1, Npc::Soldier);
    assert!(!a.plan.floor.contains(&Coord::new(0, 0)));
    assert!(a.plan.boards.is_empty());
    assert_eq!(a.plan.edge, shape.edge);
}

#[test]
fn a_foreign_floor_under_the_deck_stops_the_boat() {
    let shape = boat_shape(&hull_corners()).unwrap();
    let game = Game::new(Isaac64Rng::seed_from_u64(6), false);
    let edge_occ = empty(shape.edge.len());
    let mut floor_occ = empty(shape.floor.len());
    floor_occ[0].foreign_floor = true;
    assert!(game.try_rasterize_boat(&shape, &edge_occ, &floor_occ).is_none());
}

#[test]
fn a_new_passenger_is_seated_when_the_boat_is_placed_again() {
    let shape = boat_shape(&hull_corners()).unwrap();
    let mut game = Game::new(Isaac64Rng::seed_from_u64(8), false);
    game.num_seats = 2;
    let edge_occ = empty(shape.edge.len());
    let floor_occ = empty(shape.floor.len());
    let e = Entity { index: 4, generation: 0 };
    let p = game.handle_choice(MenuChoice::AddNpcToPassengers(e), Npc::Surgeon, &shape, &edge_occ, &floor_occ);
    assert_eq!(game.passengers, vec![Npc::Surgeon]);
    assert_eq!(game.num_seats, 2);
    assert_eq!(p.seats.len(), 1);
    assert_eq!(p.seats[0].1, Npc::Surgeon);
    let q = game.handle_choice(MenuChoice::Leave, Npc::Thief, &shape, &edge_occ, &floor_occ);
    assert_eq!(game.passengers, vec![Npc::Surgeon]);
    assert_eq!(q.seats, p.seats);
}
