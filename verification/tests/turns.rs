use boat_journey::data::DoorState;
use boat_journey::game::{
    door_to_close, Game, GameControlFlow, GameOverReason, GhostAction, Input, MoveDirection, RotateDirection,
    TurnAction,
};
use boat_journey::geometry::{CardinalDirection, Direction};
use boat_journey::geometry::Coord;
use rand::SeedableRng;
use rand_isaac::Isaac64Rng;

fn night_game(seed: u64) -> Game {
    let mut g = Game::new(Isaac64Rng::seed_from_u64(seed), false);
    g.stats.day.set_current(0);
    g
}

#[test]
fn moving_the_boat_burns_fuel_and_turning_does_not() {
    let mut g = Game::new(Isaac64Rng::seed_from_u64(1), true);
    g.boat_turn(TurnAction::MoveBoat(MoveDirection::Forward), false);
    assert_eq!(g.stats.fuel.current(), 399);
    assert_eq!(g.victory_stats.num_turns, 1);
    g.boat_turn(TurnAction::RotateBoat(RotateDirection::Left), false);
    assert_eq!(g.stats.fuel.current(), 399);
    assert_eq!(g.victory_stats.num_turns, 2);
}

#[test]
fn the_turn_ends_on_the_first_outcome_then_on_running_out_of_fuel() {
    let mut g = Game::new(Isaac64Rng::seed_from_u64(2), true);
    assert!(g.end_of_turn(None, None).is_none());
    assert!(matches!(
        g.end_of_turn(Some(GameControlFlow::Win), Some(GameControlFlow::GameOver(GameOverReason::KilledByGhost))),
        Some(GameControlFlow::Win)
    ));
    assert!(matches!(
        g.end_of_turn(None, Some(GameControlFlow::GameOver(GameOverReason::KilledByGhost))),
        Some(GameControlFlow::GameOver(GameOverReason::KilledByGhost))
    ));
    g.stats.fuel.set_current(0);
    assert!(matches!(g.end_of_turn(None, None), Some(GameControlFlow::GameOver(GameOverReason::OutOfFuel))));
}

#[test]
fn ghosts_rest_by_day_and_indoors() {
    let mut g = Game::new(Isaac64Rng::seed_from_u64(3), false);
    let ghosts = vec![Coord::new(1, 0)];
    let (actions, flow) = g.ghosts_turn(false, &ghosts, Coord::new(0, 0));
    assert!(actions.is_empty() && flow.is_none());
    let mut g = night_game(3);
    let (actions, flow) = g.ghosts_turn(true, &ghosts, Coord::new(0, 0));
    assert!(actions.is_empty() && flow.is_none());
    assert_eq!(g.stats.health.current(), 4);
}

#[test]
fn ghosts_move_closer_or_hurt_the_player_at_night() {
    let mut g = night_game(4);
    let ghosts = vec![Coord::new(5, 0), Coord::new(1, 0)];
    let (actions, flow) = g.ghosts_turn(false, &ghosts, Coord::new(0, 0));
    assert!(flow.is_none());
    assert_eq!(actions.len(), 2);
    assert!(matches!(actions[0], GhostAction::MoveTo(c) if c == Coord::new(4, 0)));
    assert!(matches!(actions[1], GhostAction::Attack(None)));
    assert_eq!(g.stats.health.current(), 3);
    assert_eq!(g.messages.len(), 1);
}

#[test]
fn the_last_point_of_health_ends_the_ghosts_turn() {
    let mut g = night_game(5);
    g.stats.health.set_current(1);
    let ghosts = vec![Coord::new(0, 1), Coord::new(0, -1)];
    let (actions, flow) = g.ghosts_turn(false, &ghosts, Coord::new(0, 0));
    assert!(matches!(flow, Some(GameControlFlow::GameOver(GameOverReason::KilledByGhost))));
    assert_eq!(actions.len(), 1);
    assert_eq!(g.stats.health.current(), 0);
}

#[test]
fn the_first_open_door_clockwise_from_north_is_closed() {
    let none = vec![None; 8];
    assert_eq!(door_to_close(&none), None);
    let mut doors = vec![None, Some(DoorState::Closed), None, Some(DoorState::Open), None, None, Some(DoorState::Open), None];
    assert_eq!(door_to_close(&doors), Some(Direction::SouthEast));
    doors[3] = Some(DoorState::Closed);
    assert_eq!(door_to_close(&doors), Some(Direction::West));
}

#[test]
fn driving_north_burns_fuel_and_east_only_turns() {
    let mut g = Game::new(Isaac64Rng::seed_from_u64(9), true);
    let (a, _) = g.start_turn(Input::Walk(CardinalDirection::North), true, false);
    assert_eq!(a, TurnAction::MoveBoat(MoveDirection::Forward));
    assert_eq!(g.stats.fuel.current(), 399);
    assert_eq!(g.victory_stats.num_turns, 1);
    let (a, _) = g.start_turn(Input::Walk(CardinalDirection::East), true, false);
    assert_eq!(a, TurnAction::RotateBoat(RotateDirection::Right));
    assert_eq!(g.stats.fuel.current(), 399);
    assert_eq!(g.victory_stats.num_turns, 2);
    let (a, _) = g.start_turn(Input::Wait, true, false);
    assert_eq!(a, TurnAction::PassTime);
    assert_eq!(g.victory_stats.num_turns, 3);
    assert!(g.driving);
}

#[test]
fn on_foot_a_step_is_left_to_the_walk() {
    let mut g = Game::new(Isaac64Rng::seed_from_u64(10), false);
    let (a, spawn) = g.start_turn(Input::Walk(CardinalDirection::South), false, false);
    assert_eq!(a, TurnAction::Walk(CardinalDirection::South));
    assert!(!spawn);
    assert_eq!(g.victory_stats.num_turns, 0);
    let (a, _) = g.start_turn(Input::DriveToggle, true, false);
    assert_eq!(a, TurnAction::Nothing);
    assert!(g.driving);
}

#[test]
fn a_ghost_on_the_stairs_strikes_first() {
    let mut g = Game::new(Isaac64Rng::seed_from_u64(11), false);
    assert!(g.take_stairs_down(false).is_none());
    assert_eq!(g.stats.health.current(), 4);
    assert!(g.take_stairs_down(true).is_none());
    assert_eq!(g.stats.health.current(), 3);
    assert_eq!(g.messages.len(), 1);
    g.stats.health.set_current(1);
    assert!(matches!(g.take_stairs_down(true), Some(GameControlFlow::GameOver(GameOverReason::KilledByGhost))));
}

#[test]
fn a_step_at_night_outside_counts_towards_a_ghost() {
    let mut g = night_game(12);
    g.has_been_on_boat = true;
    let out = g.player_walk_finish(None, None, false);
    assert!(out.spawn_ghost);
    assert_eq!(g.night_turn_count, 1);
    let out = g.player_walk_finish(None, None, false);
    assert!(!out.spawn_ghost);
    assert_eq!(g.night_turn_count, 2);
    let out = g.player_walk_finish(None, None, true);
    assert!(!out.spawn_ghost);
    assert_eq!(g.night_turn_count, 0);
}
