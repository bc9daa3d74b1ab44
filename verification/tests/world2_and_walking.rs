use boat_journey::data::{Junk, Npc};
use boat_journey::game::{
    Entity, FeatureInfo, Game, GameControlFlow, GameOverReason, GhostAction, MenuChoice,
    MenuImage, Occupant, Victory, VictoryStats, WalkStep, WalkTarget,
};
use boat_journey::geometry::{Coord, Size};
use boat_journey::grid::Grid;
use boat_journey::water::{WaterType, WorldCell2};
use boat_journey::world2::{
    find_gate_centre, gate_cells, paint_river2, river_line_cells, scale_coord, widen_river2,
    world2_river_points, world2_size,
};
use rand::SeedableRng;
use rand_isaac::Isaac64Rng;

const RIVER: WorldCell2 = WorldCell2::Water(WaterType::River);

#[test]
fn second_grid_size_and_scaling() {
    assert_eq!(world2_size(Size::new(150, 80)), Size::new(620, 640));
    assert_eq!(scale_coord(Coord::new(0, 0)), Coord::new(100, 200));
    assert_eq!(scale_coord(Coord::new(2, 5)), Coord::new(106, 215));
}

#[test]
fn river_points_reach_lake_and_ocean() {
    let river = vec![Coord::new(0, 10), Coord::new(1, 11)];
    let points = world2_river_points(&river);
    assert_eq!(
        points,
        vec![
            scale_coord(Coord::new(-11, 10)),
            scale_coord(Coord::new(0, 10)),
            scale_coord(Coord::new(1, 11)),
            scale_coord(Coord::new(24, 11)),
        ]
    );
}

#[test]
fn line_cells_join_points() {
    let points = vec![Coord::new(0, 0), Coord::new(3, 0), Coord::new(3, 2)];
    let cells = river_line_cells(&points);
    assert_eq!(
        cells,
        vec![
            Coord::new(0, 0),
            Coord::new(1, 0),
            Coord::new(2, 0),
            Coord::new(3, 0),
            Coord::new(3, 0),
            Coord::new(3, 1),
            Coord::new(3, 2),
        ]
    );
    let diagonal = river_line_cells(&vec![Coord::new(0, 0), Coord::new(2, 2)]);
    assert_eq!(diagonal, vec![Coord::new(0, 0), Coord::new(1, 1), Coord::new(2, 2)]);
    assert!(river_line_cells(&vec![Coord::new(4, 4)]).is_empty());
}

#[test]
fn painting_and_widening_the_river() {
    let mut g = Grid::new_copy(Size::new(6, 6), WorldCell2::Land);
    g.set(Coord::new(5, 5), WorldCell2::Water(WaterType::Ocean));
    paint_river2(&mut g, &vec![Coord::new(1, 1)]);
    assert_eq!(*g.get_checked(Coord::new(1, 1)), RIVER);
    let w = widen_river2(&g);
    for y in 0..6 {
        for x in 0..6 {
            let expected = if x <= 2 && y <= 2 {
                RIVER
            } else if x == 5 && y == 5 {
                WorldCell2::Water(WaterType::Ocean)
            } else {
                WorldCell2::Land
            };
            assert_eq!(*w.get_checked(Coord::new(x, y)), expected, "at {x},{y}");
        }
    }
    let ww = widen_river2(&w);
    assert_eq!(*ww.get_checked(Coord::new(3, 3)), RIVER);
    assert_eq!(*ww.get_checked(Coord::new(4, 4)), WorldCell2::Land);
}

#[test]
fn gate_is_where_river_last_enters_city() {
    let points = vec![Coord::new(100, 200), Coord::new(103, 200), Coord::new(106, 200)];
    let inside = vec![Coord::new(100, 200), Coord::new(103, 200), Coord::new(50, 50)];
    assert_eq!(find_gate_centre(&points, &inside), Some(Coord::new(103, 200)));
    assert_eq!(find_gate_centre(&points, &vec![]), None);
    let border = vec![Coord::new(0, 0), Coord::new(19, 0), Coord::new(20, 0), Coord::new(12, 15)];
    assert_eq!(gate_cells(&border, Coord::new(0, 0)), vec![Coord::new(0, 0), Coord::new(19, 0), Coord::new(12, 15)]);
}

fn game() -> Game {
    Game::new(Isaac64Rng::seed_from_u64(99), false)
}

fn target() -> WalkTarget {
    WalkTarget { in_world: true, feature: None, water: false, floor: true, boat: false }
}

fn feature() -> FeatureInfo {
    FeatureInfo {
        door_closed: false,
        solid: false,
        stairs_down: None,
        stairs_up: false,
        threshold: false,
        grave: None,
    }
}

#[test]
fn walking_into_features() {
    let mut g = game();
    let door = WalkTarget { feature: Some(FeatureInfo { door_closed: true, solid: true, ..feature() }), ..target() };
    assert!(matches!(g.player_walk_step(door), WalkStep::OpenDoor));
    let wall = WalkTarget { feature: Some(FeatureInfo { solid: true, ..feature() }), ..target() };
    assert!(matches!(g.player_walk_step(wall), WalkStep::Blocked));
    let stairs = WalkTarget { feature: Some(FeatureInfo { stairs_down: Some(2), ..feature() }), ..target() };
    assert!(matches!(g.player_walk_step(stairs), WalkStep::StairsDown(2)));
    let up = WalkTarget { feature: Some(FeatureInfo { stairs_up: true, ..feature() }), ..target() };
    assert!(matches!(g.player_walk_step(up), WalkStep::StairsUp));
    let water = WalkTarget { water: true, floor: false, ..target() };
    assert!(matches!(g.player_walk_step(water), WalkStep::Stay));
    assert!(matches!(g.player_walk_step(target()), WalkStep::Move));
    assert!(!g.has_been_on_boat() && !g.has_crossed_threshold());
}

#[test]
fn walking_onto_boat_and_threshold_is_recorded() {
    let mut g = game();
    let boat = WalkTarget { water: true, floor: false, boat: true, ..target() };
    // water with a boat but no floor or feature still stops the player
    assert!(matches!(g.player_walk_step(boat), WalkStep::Stay));
    assert!(!g.has_been_on_boat());
    let deck = WalkTarget { boat: true, ..target() };
    assert!(matches!(g.player_walk_step(deck), WalkStep::Move));
    assert!(g.has_been_on_boat());
    let threshold = WalkTarget { feature: Some(FeatureInfo { threshold: true, ..feature() }), ..target() };
    assert!(matches!(g.player_walk_step(threshold), WalkStep::Move));
    assert!(g.has_crossed_threshold());
}

#[test]
fn walking_into_a_grave_shows_epitaph() {
    let mut g = game();
    let v = Victory { name: "Cy".to_string(), stats: VictoryStats { num_turns: 12 } };
    let grave = WalkTarget { feature: Some(FeatureInfo { grave: Some(v), threshold: true, ..feature() }), ..target() };
    match g.player_walk_step(grave) {
        WalkStep::Menu(GameControlFlow::Menu(m)) => {
            assert_eq!(m.text, "Here lies Cy.\n\n\nThey reached the ocean after 12 turns.");
            assert_eq!(m.image, MenuImage::Grave);
        }
        _ => panic!("expected the grave's menu"),
    }
    assert!(g.has_crossed_threshold());
}

#[test]
fn finishing_a_step_picks_up_and_passes_time() {
    let mut g = game();
    let out = g.player_walk_finish(None, Some(Some(Junk::RotaryPhone)), false);
    assert!(out.control_flow.is_none());
    assert!(out.take_item);
    assert!(!out.spawn_ghost);
    assert_eq!(g.messages().last().unwrap(), "You pick up the rotary telephone");
    assert_eq!(g.victory_stats().num_turns, 1);
    let out = g.player_walk_finish(Some(Occupant::Other), None, false);
    assert!(!out.take_item);
    assert_eq!(g.victory_stats().num_turns, 2);
}

#[test]
fn finishing_a_step_into_someone() {
    let mut g = game();
    let out = g.player_walk_finish(Some(Occupant::UnimportantNpc), Some(None), false);
    assert!(matches!(out.control_flow, Some(GameControlFlow::Menu(_))));
    assert!(!out.take_item);
    assert_eq!(g.victory_stats().num_turns, 0);
    let e = Entity { index: 9, generation: 3 };
    let out = g.player_walk_finish(Some(Occupant::Npc(Npc::Soldier, e)), None, false);
    match out.control_flow {
        Some(GameControlFlow::Menu(m)) => {
            assert_eq!(m.choices, vec![MenuChoice::AddNpcToPassengers(e), MenuChoice::DontAddNpcToPassengers]);
        }
        _ => panic!("expected the passenger's menu"),
    }
    assert!(g.has_talked_to_npc());
}

#[test]
fn finishing_a_step_into_a_ghost() {
    let mut g = game();
    g.stats.health.set_current(2);
    let out = g.player_walk_finish(Some(Occupant::HostileSpirit), None, false);
    assert!(out.control_flow.is_none());
    assert_eq!(g.stats().health.current(), 1);
    assert_eq!(g.victory_stats().num_turns, 1);
    let out = g.player_walk_finish(Some(Occupant::HostileSpirit), None, false);
    assert!(matches!(out.control_flow, Some(GameControlFlow::GameOver(GameOverReason::KilledByGhost))));
    assert_eq!(g.victory_stats().num_turns, 1);
}

#[test]
fn ghosts_chase_the_player() {
    let mut g = game();
    assert!(matches!(g.ghost_turn(false, Coord::new(0, 0), Coord::new(5, 0)), GhostAction::Stay));
    match g.ghost_turn(true, Coord::new(0, 0), Coord::new(5, 0)) {
        GhostAction::MoveTo(c) => assert_eq!(c, Coord::new(1, 0)),
        _ => panic!("expected a move"),
    }
    match g.ghost_turn(true, Coord::new(4, 4), Coord::new(5, 5)) {
        GhostAction::Attack(None) => assert_eq!(g.stats().health.current(), 3),
        _ => panic!("expected an attack"),
    }
    assert!(matches!(g.ghost_turn(true, Coord::new(5, 5), Coord::new(5, 5)), GhostAction::Stay));
}
