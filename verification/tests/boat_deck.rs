use boat_journey::boat::{
    boat_edge, boat_floor, distinct_coords, floor_without_helm, plan_boat, seat_passengers,
    Occupancy,
};
use boat_journey::data::Npc;
use boat_journey::geometry::Coord;

fn hull_corners() -> Vec<Coord> {
    vec![
        Coord::new(0, -4),
        Coord::new(3, -1),
        Coord::new(3, 4),
        Coord::new(2, 6),
        Coord::new(0, 6),
        Coord::new(-2, 6),
        Coord::new(-3, 4),
        Coord::new(-3, -1),
    ]
}

fn square_outline(r: i32) -> Vec<Coord> {
    let mut edge = Vec::new();
    for x in -r..=r {
        for y in -r..=r {
            if x == -r || x == r || y == -r || y == r {
                edge.push(Coord::new(x, y));
            }
        }
    }
    edge
}

#[test]
fn outline_joins_each_pair_of_corners() {
    let edge = boat_edge(&hull_corners());
    for c in hull_corners() {
        assert!(edge.contains(&c));
    }
    // the straight starboard side from (3, -1) to (3, 4) is drawn cell by cell
    for y in -1..=4 {
        assert!(edge.contains(&Coord::new(3, y)));
    }
    // the stern from (2, 6) to (-2, 6)
    for x in -2..=2 {
        assert!(edge.contains(&Coord::new(x, 6)));
    }
    // the helm is off the outline
    assert!(!edge.contains(&Coord::new(0, 0)));
}

#[test]
fn square_outline_encloses_its_inside() {
    let floor = boat_floor(&square_outline(3)).expect("closed outline");
    let mut expected = Vec::new();
    for x in -2..=2 {
        for y in -2..=2 {
            expected.push(Coord::new(x, y));
        }
    }
    assert_eq!(floor, expected);
}

#[test]
fn open_outline_gives_no_deck() {
    let edge = vec![Coord::new(1, 0), Coord::new(1, 1)];
    assert_eq!(boat_floor(&edge), None);
    assert_eq!(boat_floor(&Vec::new()), None);
}

#[test]
fn outline_beside_the_helm_gives_no_deck() {
    let edge = vec![Coord::new(2, 2), Coord::new(3, 3)];
    assert_eq!(boat_floor(&edge), None);
}

#[test]
fn hull_deck_is_closed_and_avoids_the_outline() {
    let edge = boat_edge(&hull_corners());
    let floor = boat_floor(&edge).expect("the hull is closed");
    assert!(floor.contains(&Coord::new(0, 0)));
    for c in &floor {
        assert!(!edge.contains(c));
        for (dx, dy) in [(0, -1), (1, 0), (0, 1), (-1, 0)] {
            let n = Coord::new(c.x + dx, c.y + dy);
            assert!(floor.contains(&n) || edge.contains(&n));
        }
    }
    for w in floor.windows(2) {
        assert!(w[0].x < w[1].x || (w[0].x == w[1].x && w[0].y < w[1].y));
    }
}

#[test]
fn helm_is_left_out_of_the_seats() {
    let floor = boat_floor(&square_outline(2)).expect("closed outline");
    assert_eq!(floor.len(), 9);
    let seats = floor_without_helm(&floor);
    assert_eq!(seats.len(), 8);
    assert!(!seats.contains(&Coord::new(0, 0)));
    assert_eq!(seats[0], Coord::new(-1, -1));
}

#[test]
fn each_passenger_gets_a_distinct_seat() {
    let deck = vec![Coord::new(-1, 0), Coord::new(1, 0), Coord::new(0, 1)];
    let passengers = vec![Npc::Soldier, Npc::Thief];
    let seated = seat_passengers(&deck, 7, &passengers);
    assert_eq!(seated.len(), 2);
    assert_eq!(seated[0].1, Npc::Soldier);
    assert_eq!(seated[1].1, Npc::Thief);
    assert!(deck.contains(&seated[0].0));
    assert!(deck.contains(&seated[1].0));
    assert_ne!(seated[0].0, seated[1].0);
    // the same seed seats them the same way
    assert_eq!(seat_passengers(&deck, 7, &passengers), seated);
}

#[test]
fn more_passengers_than_seats() {
    let deck = vec![Coord::new(1, 1)];
    let passengers = vec![Npc::Beast, Npc::Surgeon, Npc::Physicist];
    let seated = seat_passengers(&deck, 3, &passengers);
    assert_eq!(seated, vec![(Coord::new(1, 1), Npc::Beast)]);
}

#[test]
fn repeated_outline_cells_are_kept_once() {
    let v = vec![Coord::new(1, 1), Coord::new(2, 1), Coord::new(1, 1), Coord::new(3, 1), Coord::new(2, 1)];
    assert_eq!(distinct_coords(&v), vec![Coord::new(1, 1), Coord::new(2, 1), Coord::new(3, 1)]);
    // the corners of the hull are shared by two of its sides
    let edge = boat_edge(&hull_corners());
    let distinct = distinct_coords(&edge);
    assert!(distinct.len() < edge.len());
    for c in &edge {
        assert_eq!(distinct.iter().filter(|d| *d == c).count(), 1);
    }
}

const CLEAR: Occupancy = Occupancy { foreign_floor: false, foreign_feature: false };

#[test]
fn boat_goes_where_nothing_is_in_the_way() {
    let edge = vec![Coord::new(-1, 0), Coord::new(1, 0), Coord::new(0, 1)];
    let floor = vec![Coord::new(0, 0), Coord::new(0, -1)];
    let mut edge_occupancy = vec![CLEAR; 3];
    edge_occupancy[1].foreign_floor = true;
    let plan = plan_boat(&edge, &edge_occupancy, &floor, &vec![CLEAR; 2]).expect("clear water");
    assert_eq!(plan.boards, vec![Coord::new(1, 0)]);
    assert_eq!(plan.edge, vec![Coord::new(-1, 0), Coord::new(0, 1)]);
    assert_eq!(plan.floor, vec![Coord::new(0, -1)]);
}

#[test]
fn boat_is_blocked_by_land_or_features() {
    let edge = vec![Coord::new(-1, 0), Coord::new(1, 0)];
    let floor = vec![Coord::new(0, 0)];
    let blocked_floor = vec![Occupancy { foreign_floor: true, foreign_feature: false }];
    assert!(plan_boat(&edge, &vec![CLEAR; 2], &floor, &blocked_floor).is_none());
    let mut edge_occupancy = vec![CLEAR; 2];
    edge_occupancy[0].foreign_feature = true;
    assert!(plan_boat(&edge, &edge_occupancy, &floor, &vec![CLEAR; 1]).is_none());
}

#[test]
fn seeds_change_the_seating() {
    let deck: Vec<Coord> = (0..10).map(|i| Coord::new(i, 0)).collect();
    let passengers = vec![Npc::Soldier; 10];
    // without the shuffle the first passenger would always take the last deck cell
    let unshuffled: Vec<(Coord, Npc)> = deck.iter().rev().map(|c| (*c, Npc::Soldier)).collect();
    let differs = (0..20u64).any(|seed| seat_passengers(&deck, seed, &passengers) != unshuffled);
    assert!(differs);
}
