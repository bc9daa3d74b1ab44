use boat_journey::data::{Junk, Npc};
use boat_journey::geometry::{Coord, Size};
use boat_journey::grid::Grid;
use boat_journey::populate::{
    assign_npcs, pick_junk, populate_dungeon, scatter_in_buildings, scatter_on_islands,
};
use boat_journey::terrain::WorldCell3;
use boat_journey::water::{WaterType, WorldCell2};
use boat_journey::world3::{
    beach_coords, build_city_building, build_house, build_inn, build_pier, build_road,
    building_floor_coords, building_stairs, city_blocks, fill_rect, grave_candidates,
    house_fits, house_path, lake_bottom, mark_gate, mark_town_ground, place_at_random,
    set_rect_edge, try_build_house, House, LakeTown,
};
use rand::SeedableRng;
use rand_isaac::Isaac64Rng;
use std::collections::HashSet;

fn rng(seed: u64) -> Isaac64Rng {
    Isaac64Rng::seed_from_u64(seed)
}

fn count(grid: &Grid<WorldCell3>, cell: WorldCell3) -> usize {
    (0..grid.count()).filter(|&i| *grid.get_checked(grid.coord_of_index(i)) == cell).count()
}

#[test]
fn rectangles_and_their_edges() {
    let mut g = Grid::new_copy(Size::new(6, 5), 0u8);
    fill_rect(&mut g, Coord::new(1, 1), Size::new(3, 2), 1);
    set_rect_edge(&mut g, Coord::new(0, 0), Size::new(6, 5), 2);
    assert_eq!(*g.get_checked(Coord::new(2, 2)), 1);
    assert_eq!(*g.get_checked(Coord::new(4, 2)), 0);
    assert_eq!(*g.get_checked(Coord::new(0, 3)), 2);
    assert_eq!(*g.get_checked(Coord::new(5, 4)), 2);
    assert_eq!(*g.get_checked(Coord::new(1, 1)), 1);
}

#[test]
fn lake_bottom_is_seven_below_the_shore() {
    let mut g = Grid::new_copy(Size::new(5, 30), WorldCell2::Land);
    for y in 0..10 {
        g.set(Coord::new(2, y), WorldCell2::Water(WaterType::River));
    }
    assert_eq!(lake_bottom(&g, Coord::new(2, 3)), Coord::new(2, 17));
    assert_eq!(lake_bottom(&g, Coord::new(0, 3)), Coord::new(0, 10));
}

#[test]
fn pier_is_two_columns_of_fifteen() {
    let mut g = Grid::new_copy(Size::new(10, 30), WorldCell3::Water(WaterType::River));
    let spawns = build_pier(&mut g, Coord::new(5, 20));
    assert_eq!(spawns, vec![Coord::new(5, 8), Coord::new(4, 8)]);
    assert_eq!(count(&g, WorldCell3::Floor), 30);
    assert_eq!(*g.get_checked(Coord::new(4, 6)), WorldCell3::Floor);
    assert_eq!(*g.get_checked(Coord::new(5, 5)), WorldCell3::Water(WaterType::River));
}

#[test]
fn graves_go_on_even_floor_columns() {
    let mut g = Grid::new_copy(Size::new(6, 3), WorldCell3::Floor);
    g.set(Coord::new(2, 1), WorldCell3::Ground);
    let inside = vec![Coord::new(0, 0), Coord::new(1, 0), Coord::new(2, 1), Coord::new(4, 2)];
    let candidates = grave_candidates(&g, &inside);
    assert_eq!(candidates, vec![Coord::new(0, 0), Coord::new(4, 2)]);
    let chosen = place_at_random(&mut g, candidates.clone(), 1, WorldCell3::Grave, &mut rng(1));
    assert_eq!(chosen.len(), 1);
    assert!(candidates.contains(&chosen[0]));
    assert_eq!(count(&g, WorldCell3::Grave), 1);
    let mut g2 = Grid::new_copy(Size::new(6, 3), WorldCell3::Floor);
    let all = place_at_random(&mut g2, candidates.clone(), 10, WorldCell3::Grave, &mut rng(2));
    assert_eq!(all.iter().cloned().collect::<HashSet<_>>(), candidates.into_iter().collect());
}

#[test]
fn town_ground_only_replaces_ground() {
    let mut g = Grid::new_copy(Size::new(3, 1), WorldCell3::Ground);
    g.set(Coord::new(1, 0), WorldCell3::Floor);
    mark_town_ground(&mut g, &vec![Coord::new(0, 0), Coord::new(1, 0)]);
    assert_eq!(*g.get_checked(Coord::new(0, 0)), WorldCell3::TownGround);
    assert_eq!(*g.get_checked(Coord::new(1, 0)), WorldCell3::Floor);
    assert_eq!(*g.get_checked(Coord::new(2, 0)), WorldCell3::Ground);
}

#[test]
fn houses_need_town_ground_and_get_walls_and_a_door() {
    let mut g = Grid::new_copy(Size::new(12, 12), WorldCell3::TownGround);
    assert!(house_fits(&g, Coord::new(1, 1), Size::new(6, 6)));
    g.set(Coord::new(6, 6), WorldCell3::Ground);
    assert!(!house_fits(&g, Coord::new(1, 1), Size::new(6, 6)));
    assert!(house_fits(&g, Coord::new(0, 0), Size::new(6, 6)));
    build_house(&mut g, Coord::new(0, 0), Size::new(6, 6), Coord::new(2, 4));
    assert_eq!(*g.get_checked(Coord::new(2, 4)), WorldCell3::Door);
    assert_eq!(*g.get_checked(Coord::new(1, 1)), WorldCell3::Wall);
    assert_eq!(*g.get_checked(Coord::new(4, 4)), WorldCell3::Wall);
    assert_eq!(*g.get_checked(Coord::new(2, 2)), WorldCell3::Floor);
    assert_eq!(*g.get_checked(Coord::new(0, 0)), WorldCell3::TownGround);
    house_path(&mut g, Coord::new(2, 4), Coord::new(2, 9));
    for y in 5..9 {
        assert_eq!(*g.get_checked(Coord::new(2, y)), WorldCell3::Floor);
    }
    assert_eq!(*g.get_checked(Coord::new(2, 9)), WorldCell3::TownGround);
}

#[test]
fn lake_town_houses_and_road() {
    let lake_bottom = Coord::new(30, 20);
    let mut g = Grid::new_copy(Size::new(60, 40), WorldCell3::TownGround);
    let mut r = rng(5);
    let mut town = LakeTown::new();
    let mut houses: Vec<House> = Vec::new();
    while town.num_houses < 2 {
        for _ in 0..50 {
            if let Some(h) = try_build_house(&mut g, lake_bottom, &mut r) {
                assert_eq!(*g.get_checked(h.door), WorldCell3::Door);
                assert_eq!(h.door.x, lake_bottom.x + h.door_offset);
                town.add_house(h, lake_bottom);
                houses.push(h);
            }
        }
    }
    let dist = houses.iter().map(|h| h.door_offset.abs()).max().unwrap();
    assert_eq!(town.max_dist, dist);
    let door = town.your_door.unwrap();
    assert!(houses.iter().any(|h| h.door == door && h.door_offset.abs() == dist));
    let start = town.start_coord.unwrap();
    assert_eq!(start.x, door.x);
    assert_eq!((start.y - door.y).abs(), 2);
    build_road(&mut g, lake_bottom, town.road_min, town.road_max);
    for x in town.road_min..=town.road_max {
        assert_eq!(*g.get_checked(Coord::new(lake_bottom.x + x, lake_bottom.y)), WorldCell3::Floor);
    }
}

#[test]
fn inn_layout() {
    let mut g = Grid::new_copy(Size::new(30, 20), WorldCell3::Water(WaterType::River));
    let pc = Coord::new(10, 5);
    let inn = build_inn(&mut g, pc);
    assert_eq!(inn.inside.len(), 70);
    assert_eq!(inn.inside[0], Coord::new(13, 5));
    assert_eq!(inn.inside[69], Coord::new(19, 14));
    assert_eq!(inn.shop, Coord::new(17, 12));
    assert_eq!(inn.junk_spawn, Coord::new(11, 10));
    assert_eq!(inn.npc, Coord::new(2, 9));
    assert_eq!(*g.get_checked(Coord::new(12, 12)), WorldCell3::Door);
    assert_eq!(*g.get_checked(Coord::new(12, 5)), WorldCell3::Wall);
    assert_eq!(*g.get_checked(Coord::new(19, 14)), WorldCell3::Wall);
    assert_eq!(*g.get_checked(Coord::new(15, 8)), WorldCell3::Floor);
    assert_eq!(*g.get_checked(Coord::new(11, 5)), WorldCell3::Floor);
    assert_eq!(*g.get_checked(Coord::new(1, 8)), WorldCell3::Floor);
    assert_eq!(*g.get_checked(Coord::new(1, 9)), WorldCell3::Floor);
    assert_eq!(*g.get_checked(Coord::new(0, 8)), WorldCell3::Water(WaterType::River));
    assert_eq!(*g.get_checked(Coord::new(5, 10)), WorldCell3::Water(WaterType::River));
}

#[test]
fn beaches_touch_water_or_floor() {
    let mut g = Grid::new_copy(Size::new(5, 5), WorldCell3::Water(WaterType::Ocean));
    g.set(Coord::new(1, 1), WorldCell3::Ground);
    g.set(Coord::new(2, 2), WorldCell3::Ground);
    g.set(Coord::new(3, 3), WorldCell3::Ground);
    g.set(Coord::new(3, 1), WorldCell3::Water(WaterType::River));
    let island = vec![Coord::new(1, 1), Coord::new(2, 2), Coord::new(3, 3)];
    assert_eq!(beach_coords(&g, &island), vec![Coord::new(2, 2)]);
    g.set(Coord::new(4, 4), WorldCell3::Floor);
    assert_eq!(beach_coords(&g, &island), vec![Coord::new(2, 2), Coord::new(3, 3)]);
}

#[test]
fn gate_replaces_river_water_only() {
    let mut g = Grid::new_copy(Size::new(3, 1), WorldCell3::Water(WaterType::River));
    g.set(Coord::new(1, 0), WorldCell3::Wall);
    mark_gate(&mut g, &vec![Coord::new(0, 0), Coord::new(1, 0)]);
    assert_eq!(*g.get_checked(Coord::new(0, 0)), WorldCell3::Gate);
    assert_eq!(*g.get_checked(Coord::new(1, 0)), WorldCell3::Wall);
    assert_eq!(*g.get_checked(Coord::new(2, 0)), WorldCell3::Water(WaterType::River));
}

#[test]
fn city_blocks_skip_corners() {
    let (blocks, inn) = city_blocks(&mut rng(3));
    assert_eq!(blocks.len(), 9);
    let mut all: HashSet<_> = blocks.iter().cloned().collect();
    assert_eq!(all.len(), 9);
    assert!(all.insert(inn));
    for c in &all {
        assert!(!((c.x == 0 || c.x == 3) && (c.y == 0 || c.y == 3)));
    }
}

#[test]
fn city_building_rooms_and_doors() {
    let mut g = Grid::new_copy(Size::new(120, 120), WorldCell3::Ground);
    let city = Coord::new(10, 10);
    let b = build_city_building(&mut g, Coord::new(1, 2), city, &mut rng(4));
    assert!([15, 17, 19].contains(&b.side));
    let p = (25 - b.side as i32) / 2;
    assert_eq!(b.coord, Coord::new(25 + p + 10, 50 + p + 10));
    assert!((1..=3).contains(&b.outer_doors.len()));
    let s = b.side as i32;
    let at = |x: i32, y: i32| *g.get_checked(Coord::new(b.coord.x + x, b.coord.y + y));
    assert_eq!(at(1, 1), WorldCell3::Floor);
    assert_eq!(at(s / 2, 1), WorldCell3::Wall);
    assert_eq!(at(1, s / 2), WorldCell3::Wall);
    assert_eq!(at(s / 4, s / 2), WorldCell3::Door);
    assert_eq!(at(s / 2, 3 * s / 4), WorldCell3::Door);
    for d in &b.outer_doors {
        assert_eq!(*g.get_checked(*d), WorldCell3::Door);
        let rel = Coord::new(d.x - b.coord.x, d.y - b.coord.y);
        assert!(rel.x == 0 || rel.y == 0 || rel.x == s - 1 || rel.y == s - 1);
    }
    let stair = building_stairs(b.coord, b.side, &mut rng(5));
    let rel = Coord::new(stair.x - b.coord.x, stair.y - b.coord.y);
    assert!([s / 4, 3 * s / 4].contains(&rel.x) && [s / 4, 3 * s / 4].contains(&rel.y));
    let floors = building_floor_coords(&g, b.coord, b.side, stair);
    assert!(!floors.contains(&stair));
    assert!(floors.iter().all(|c| *g.get_checked(*c) == WorldCell3::Floor));
    let interior = (s - 2 - 1) * (s - 2 - 1);
    assert_eq!(floors.len() as i32, interior - 1);
}

#[test]
fn junk_and_passengers() {
    let j = pick_junk(&mut rng(6));
    assert!(Junk::all().contains(&j));
    let spawns: Vec<Coord> = (0..9).map(|i| Coord::new(i, 0)).collect();
    let assigned = assign_npcs(&spawns, &mut rng(7));
    assert_eq!(assigned.len(), 7);
    let npcs: HashSet<Npc> = assigned.iter().map(|(_, n)| *n).collect();
    assert_eq!(npcs.len(), 7);
    for (i, (c, _)) in assigned.iter().enumerate() {
        assert_eq!(*c, spawns[i]);
    }
    let few = assign_npcs(&spawns[..2].to_vec(), &mut rng(7));
    assert_eq!(few.len(), 2);
}

#[test]
fn dungeon_population_takes_three_and_three() {
    let centres: Vec<Coord> = (0..8).map(|i| Coord::new(i, i)).collect();
    let p = populate_dungeon(centres.clone(), &mut rng(8));
    assert_eq!(p.beasts.len(), 3);
    assert_eq!(p.junk.len(), 3);
    let used: HashSet<Coord> = p.beasts.iter().cloned().chain(p.junk.iter().map(|(c, _)| *c)).collect();
    assert_eq!(used.len(), 6);
    assert!(used.iter().all(|c| centres.contains(c)));
    let p = populate_dungeon(centres[..4].to_vec(), &mut rng(9));
    assert_eq!(p.beasts.len(), 3);
    assert_eq!(p.junk.len(), 1);
}

#[test]
fn scattering_takes_from_the_end() {
    let cells: Vec<Coord> = (0..40).map(|i| Coord::new(i, 0)).collect();
    let s = scatter_in_buildings(cells.clone(), &mut rng(10));
    assert_eq!(s.junk.len(), 15);
    assert_eq!(s.beasts.len(), 20);
    assert_eq!(s.junk[0].0, Coord::new(39, 0));
    assert_eq!(s.beasts[0], Coord::new(24, 0));
    assert_eq!(s.beasts[19], Coord::new(5, 0));
    let s = scatter_on_islands(cells[..20].to_vec(), &mut rng(11));
    assert_eq!(s.junk.len(), 15);
    assert_eq!(s.beasts.len(), 5);
}
