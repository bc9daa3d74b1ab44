use boat_journey::doors::{
    add_doors, choose_spawn_coord, choose_stairs_coord, classify_floor_cells_into_rooms,
    identify_door_candidates_in_axis, DoorCandidate, DoorCell, FloorCell, RoomGraph,
};
use boat_journey::geometry::{Axis, Coord, Size};
use boat_journey::grid::Grid;
use boat_journey::hull::HullCell;
use rand::SeedableRng;
use rand_isaac::Isaac64Rng;

fn hull_from_rows(rows: &[&str]) -> Grid<HullCell> {
    let size = Size::new(rows[0].len() as u32, rows.len() as u32);
    let mut grid = Grid::new_copy(size, HullCell::Space);
    for (y, row) in rows.iter().enumerate() {
        for (x, ch) in row.chars().enumerate() {
            let cell = match ch {
                '#' => HullCell::Wall,
                '.' => HullCell::Floor,
                _ => HullCell::Space,
            };
            grid.set(Coord::new(x as i32, y as i32), cell);
        }
    }
    grid
}

fn two_rooms() -> Grid<HullCell> {
    hull_from_rows(&["#########", "#...#...#", "#...#...#", "#...#...#", "#########"])
}

fn room(floor: &Grid<Option<FloorCell>>, x: i32, y: i32) -> Option<usize> {
    floor.get_checked(Coord::new(x, y)).map(|f| f.room_id)
}

#[test]
fn rooms_are_numbered_in_row_major_order() {
    let floor = classify_floor_cells_into_rooms(&two_rooms());
    assert_eq!(room(&floor, 1, 1), Some(0));
    assert_eq!(room(&floor, 3, 3), Some(0));
    assert_eq!(room(&floor, 5, 1), Some(1));
    assert_eq!(room(&floor, 7, 3), Some(1));
    assert_eq!(room(&floor, 4, 2), None);
    assert_eq!(room(&floor, 0, 0), None);
}

#[test]
fn rooms_joined_around_a_pillar_are_one_room() {
    let hull = hull_from_rows(&["#####", "#...#", "#.#.#", "#.#.#", "#...#", "#####"]);
    let floor = classify_floor_cells_into_rooms(&hull);
    assert_eq!(room(&floor, 1, 2), Some(0));
    assert_eq!(room(&floor, 3, 2), Some(0));
    // the pillar cells lie between the same room on both sides, so they are not merged
    let candidates = identify_door_candidates_in_axis(&hull, &floor, Axis::X);
    assert_eq!(candidates.len(), 2);
    for (c, y) in candidates.iter().zip([2, 3]) {
        assert_eq!(c.top_left, Coord::new(2, y));
        assert_eq!(c.length, 1);
        assert_eq!(c.left_room_id, 0);
        assert_eq!(c.right_room_id, 0);
    }
}

#[test]
fn a_wall_between_two_rooms_is_one_run() {
    let hull = two_rooms();
    let floor = classify_floor_cells_into_rooms(&hull);
    let xs = identify_door_candidates_in_axis(&hull, &floor, Axis::X);
    assert_eq!(
        xs,
        vec![DoorCandidate {
            axis: Axis::X,
            top_left: Coord::new(4, 1),
            length: 3,
            left_room_id: 0,
            right_room_id: 1,
        }]
    );
    assert_eq!(xs[0].next_coord(), Coord::new(4, 4));
    let ys = identify_door_candidates_in_axis(&hull, &floor, Axis::Y);
    assert!(ys.is_empty());
}

#[test]
fn room_graph_links_both_sides() {
    let hull = two_rooms();
    let floor = classify_floor_cells_into_rooms(&hull);
    let xs = identify_door_candidates_in_axis(&hull, &floor, Axis::X);
    let graph = RoomGraph::new(xs);
    assert_eq!(graph.nodes.len(), 2);
    assert_eq!(graph.nodes[0].edges.len(), 1);
    assert_eq!(graph.nodes[0].edges[0].to_room_id, 1);
    assert_eq!(graph.nodes[0].edges[0].via, 0);
    assert_eq!(graph.nodes[1].edges[0].to_room_id, 0);
    let mut rng = Isaac64Rng::seed_from_u64(3);
    let tree = graph.random_door_candidate_minimum_spanning_tree(&mut rng);
    assert_eq!(tree, vec![true]);
}

#[test]
fn doors_stairs_and_spawn_in_two_rooms() {
    let hull = two_rooms();
    let mut rng = Isaac64Rng::seed_from_u64(11);
    let grid = add_doors(&hull, &mut rng).expect("both rooms have a cell surrounded by floor");
    let mut doors = 0;
    let mut stairs = Vec::new();
    let mut spawns = Vec::new();
    for y in 0..5 {
        for x in 0..9 {
            let c = Coord::new(x, y);
            match *grid.get_checked(c) {
                DoorCell::Door(axis) => {
                    assert_eq!(axis, Axis::X);
                    assert_eq!(x, 4);
                    doors += 1;
                }
                DoorCell::Stairs => stairs.push(c),
                DoorCell::Spawn => spawns.push(c),
                _ => {}
            }
        }
    }
    assert_eq!(doors, 1);
    assert_eq!(stairs.len(), 1);
    assert_eq!(spawns.len(), 1);
    let centres = [Coord::new(2, 2), Coord::new(6, 2)];
    assert!(centres.contains(&stairs[0]));
    assert!(centres.contains(&spawns[0]));
    assert_ne!(stairs[0], spawns[0]);
}

#[test]
fn no_place_for_the_stairs_gives_no_doors() {
    let hull = hull_from_rows(&["#####", "#.#.#", "#####"]);
    let mut rng = Isaac64Rng::seed_from_u64(5);
    assert!(add_doors(&hull, &mut rng).is_none());
}

#[test]
fn stairs_need_floor_all_around() {
    let mut rng = Isaac64Rng::seed_from_u64(1);
    let open = Grid::new_copy(Size::new(3, 3), DoorCell::Floor);
    assert_eq!(choose_stairs_coord(&open, &mut rng), Some(Coord::new(1, 1)));
    let small = Grid::new_copy(Size::new(2, 2), DoorCell::Floor);
    assert_eq!(choose_stairs_coord(&small, &mut rng), None);
}

#[test]
fn spawn_is_the_farthest_of_few_places() {
    let mut rng = Isaac64Rng::seed_from_u64(9);
    let grid = Grid::new_copy(Size::new(7, 3), DoorCell::Floor);
    let floor = Grid::new_copy(Size::new(7, 3), Some(FloorCell { room_id: 0 }));
    let spawn = choose_spawn_coord(&grid, &floor, 99, Coord::new(0, 1), &mut rng);
    assert_eq!(spawn, Some(Coord::new(5, 1)));
    // every place is in the room of the stairs
    assert_eq!(choose_spawn_coord(&grid, &floor, 0, Coord::new(0, 1), &mut rng), None);
}
