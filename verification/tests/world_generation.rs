use boat_journey::dungeon::{generate_dungeon, DungeonCell};
use boat_journey::geometry::{Coord, Size};
use boat_journey::grid::Grid;
use boat_journey::river::{
    world_grid1_from_river, world_grid1_validate_no_loops, world_grid1_widen_river, WorldCell1,
};
use boat_journey::rooms_and_corridors::{RoomsAndCorridorsCell, RoomsAndCorridorsLevel};
use boat_journey::terrain::validate_river;
use boat_journey::town::{get_town_candidate_positions, is_point_valid_for_river_town, make_towns};
use boat_journey::water::{WaterDistanceMap, WaterType, WorldCell2};
use rand::SeedableRng;
use rand_isaac::Isaac64Rng;

fn vertical_river(x: i32, height: i32) -> Vec<Coord> {
    (0..height).map(|y| Coord::new(x, y)).collect()
}

#[test]
fn river_cells_become_water() {
    let river = vec![Coord::new(0, 0), Coord::new(1, 1), Coord::new(2, 1)];
    let g = world_grid1_from_river(Size::new(3, 3), &river);
    assert_eq!(*g.get_checked(Coord::new(0, 0)), WorldCell1::Water);
    assert_eq!(*g.get_checked(Coord::new(1, 1)), WorldCell1::Water);
    assert_eq!(*g.get_checked(Coord::new(2, 1)), WorldCell1::Water);
    assert_eq!(*g.get_checked(Coord::new(1, 0)), WorldCell1::Land);
    assert_eq!(*g.get_checked(Coord::new(2, 2)), WorldCell1::Land);
    assert!(validate_river(&river));
}

#[test]
fn widening_reaches_diagonal_neighbours() {
    let river = vec![Coord::new(2, 2)];
    let mut g = world_grid1_from_river(Size::new(5, 5), &river);
    world_grid1_widen_river(&mut g);
    for y in 0..5 {
        for x in 0..5 {
            let expected = if (1..=3).contains(&x) && (1..=3).contains(&y) {
                WorldCell1::Water
            } else {
                WorldCell1::Land
            };
            assert_eq!(*g.get_checked(Coord::new(x, y)), expected, "at {x},{y}");
        }
    }
}

#[test]
fn river_splitting_land_in_two_is_accepted() {
    let g = world_grid1_from_river(Size::new(7, 5), &vertical_river(3, 5));
    assert!(world_grid1_validate_no_loops(&g));
}

#[test]
fn land_in_one_piece_is_refused() {
    let g = world_grid1_from_river(Size::new(7, 5), &vertical_river(3, 4));
    assert!(!world_grid1_validate_no_loops(&g));
}

#[test]
fn island_makes_three_regions() {
    let mut river = vertical_river(3, 5);
    river.extend([Coord::new(5, 1), Coord::new(6, 1), Coord::new(5, 2), Coord::new(5, 3), Coord::new(6, 3)]);
    let g = world_grid1_from_river(Size::new(7, 5), &river);
    assert_eq!(*g.get_checked(Coord::new(6, 2)), WorldCell1::Land);
    assert!(!world_grid1_validate_no_loops(&g));
}

#[test]
fn diagonal_contact_does_not_join_land() {
    // Water on a diagonal leaves the two land cells touching only at a corner.
    let river = vec![Coord::new(0, 0), Coord::new(1, 1)];
    let g = world_grid1_from_river(Size::new(2, 2), &river);
    assert!(world_grid1_validate_no_loops(&g));
}

fn river_grid() -> (Grid<WorldCell1>, Vec<Coord>) {
    let river = vertical_river(30, 200);
    let mut g = world_grid1_from_river(Size::new(60, 200), &river);
    world_grid1_widen_river(&mut g);
    world_grid1_widen_river(&mut g);
    (g, river)
}

#[test]
fn town_needs_two_crossings() {
    let (g, _) = river_grid();
    assert!(is_point_valid_for_river_town(&g, Coord::new(30, 100)));
    // on land
    assert!(!is_point_valid_for_river_town(&g, Coord::new(10, 100)));
    // square reaching out of the grid
    assert!(!is_point_valid_for_river_town(&g, Coord::new(30, 10)));
    assert!(!is_point_valid_for_river_town(&g, Coord::new(30, 190)));
    // top-left corner of the square in the water
    let mut river = vertical_river(30, 200);
    river.extend(vertical_river(5, 200));
    let g2 = world_grid1_from_river(Size::new(60, 200), &river);
    assert!(!is_point_valid_for_river_town(&g2, Coord::new(30, 100)));
}

#[test]
fn town_refused_when_two_rivers_cross_the_square() {
    let mut river = vertical_river(30, 160);
    river.extend(vertical_river(40, 160));
    let g = world_grid1_from_river(Size::new(80, 160), &river);
    assert!(!is_point_valid_for_river_town(&g, Coord::new(30, 80)));
}

#[test]
fn town_accepted_when_river_turns_back_inside_square() {
    // Entering and leaving through the same side is still two steps onto water.
    let mut river = vertical_river(30, 100);
    river.extend((30..=40).map(|x| Coord::new(x, 99)));
    river.extend((0..100).map(|y| Coord::new(40, y)));
    let g = world_grid1_from_river(Size::new(80, 160), &river);
    assert!(is_point_valid_for_river_town(&g, Coord::new(30, 99)));
}

#[test]
fn town_candidates_near_a_quarter_and_four_fifths() {
    let (g, river) = river_grid();
    let candidates = get_town_candidate_positions(&g, &river);
    assert_eq!(candidates.len(), 2);
    assert_eq!(candidates[0], river[40..60].to_vec());
    assert_eq!(candidates[1], river[150..170].to_vec());
}

#[test]
fn towns_clear_squares_around_candidates() {
    let (g, river) = river_grid();
    let candidates = get_town_candidate_positions(&g, &river);
    let mut rng = Isaac64Rng::seed_from_u64(7);
    let (out, towns) = make_towns(&g, &candidates, &mut rng).expect("towns");
    assert_eq!(towns.len(), 2);
    assert!(candidates[0].contains(&towns[0]));
    assert!(candidates[1].contains(&towns[1]));
    for t in &towns {
        for dy in -25..25 {
            for dx in -25..25 {
                assert_eq!(*out.get_checked(Coord::new(t.x + dx, t.y + dy)), WorldCell1::Water);
            }
        }
    }
    assert_eq!(*out.get_checked(Coord::new(0, 0)), WorldCell1::Land);
    assert_eq!(*out.get_checked(Coord::new(30, 0)), WorldCell1::Water);
}

#[test]
fn water_distances_grow_away_from_shore() {
    let mut g = Grid::new_copy(Size::new(40, 1), WorldCell2::Land);
    g.set(Coord::new(0, 0), WorldCell2::Water(WaterType::River));
    let map = WaterDistanceMap::new(&g);
    for x in 0..40 {
        let expected = if x < 30 { x as u32 } else { u32::MAX };
        assert_eq!(*map.distances.get_checked(Coord::new(x, 0)), expected, "at {x}");
    }
}

#[test]
fn water_distances_use_diagonals() {
    let mut g = Grid::new_copy(Size::new(5, 5), WorldCell2::Land);
    g.set(Coord::new(0, 0), WorldCell2::Water(WaterType::Ocean));
    let map = WaterDistanceMap::new(&g);
    assert_eq!(*map.distances.get_checked(Coord::new(3, 3)), 3);
    assert_eq!(*map.distances.get_checked(Coord::new(4, 1)), 4);
    assert_eq!(*map.distances.get_checked(Coord::new(0, 0)), 0);
}

#[test]
fn land_without_water_is_out_of_reach() {
    let g = Grid::new_copy(Size::new(3, 3), WorldCell2::Land);
    let map = WaterDistanceMap::new(&g);
    assert_eq!(*map.distances.get_checked(Coord::new(1, 1)), u32::MAX);
}

#[test]
fn inland_water_is_not_a_shore() {
    // A lake filling the grid except one land cell: only water touching land or the edge is
    // shore, and all water reads 0.
    let mut g = Grid::new_copy(Size::new(5, 5), WorldCell2::Water(WaterType::River));
    g.set(Coord::new(4, 4), WorldCell2::Land);
    let map = WaterDistanceMap::new(&g);
    assert_eq!(*map.distances.get_checked(Coord::new(4, 4)), 1);
    assert_eq!(*map.distances.get_checked(Coord::new(2, 2)), 0);
}

#[test]
fn rooms_and_corridors_level() {
    let mut rng = Isaac64Rng::seed_from_u64(11);
    let size = Size::new(40, 30);
    let level = RoomsAndCorridorsLevel::generate(size, &mut rng);
    assert_eq!(level.map.size(), size);
    assert_eq!(*level.map.get_checked(level.player_spawn), RoomsAndCorridorsCell::Floor);
    assert_eq!(*level.map.get_checked(level.destination), RoomsAndCorridorsCell::Floor);
    for c in &level.other_room_centres {
        assert_eq!(*level.map.get_checked(*c), RoomsAndCorridorsCell::Floor);
    }
}

#[test]
fn dungeon_keeps_level_layout() {
    let mut rng = Isaac64Rng::seed_from_u64(12);
    let size = Size::new(30, 20);
    let d = generate_dungeon(size, &mut rng);
    assert_eq!(d.grid.size(), size);
    assert!(matches!(*d.grid.get_checked(d.spawn), DungeonCell::Floor));
    assert!(matches!(*d.grid.get_checked(d.destination), DungeonCell::Floor));
    let mut rng_a = Isaac64Rng::seed_from_u64(13);
    let mut rng_b = Isaac64Rng::seed_from_u64(13);
    let level = RoomsAndCorridorsLevel::generate(size, &mut rng_a);
    let d = generate_dungeon(size, &mut rng_b);
    assert_eq!(d.spawn, level.player_spawn);
    assert_eq!(d.destination, level.destination);
    assert_eq!(d.other_room_centres, level.other_room_centres);
    for y in 0..20 {
        for x in 0..30 {
            let c = Coord::new(x, y);
            let expected = match *level.map.get_checked(c) {
                RoomsAndCorridorsCell::Floor => DungeonCell::Floor,
                RoomsAndCorridorsCell::Wall => DungeonCell::Wall,
                RoomsAndCorridorsCell::Door => DungeonCell::Door,
            };
            assert_eq!(*d.grid.get_checked(c), expected);
        }
    }
}
