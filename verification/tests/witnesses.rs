use boat_journey::data::Npc;
use boat_journey::game::{
    Entity, GameControlFlow, GameOverReason, Menu as GameMenu, MenuChoice, MenuImage,
};
use boat_journey::witness::{new_game, witness_for_input, RunningGame, Running, Witness};
use rand::SeedableRng;
use rand_isaac::Isaac64Rng;

fn a_menu() -> GameMenu {
    GameMenu { choices: vec![MenuChoice::Leave], text: "hello".to_string(), image: MenuImage::Grave }
}

#[test]
fn new_game_is_running() {
    let (game, running) = new_game(Isaac64Rng::seed_from_u64(1), false);
    assert!(!game.inner_ref().is_driving());
    assert!(matches!(running.into_witness(), Witness::Running(_)));
}

#[test]
fn tick_wins_in_the_ocean() {
    let (mut game, running) = new_game(Isaac64Rng::seed_from_u64(2), false);
    let w = running.tick(&mut game, false);
    let running = match w {
        Witness::Running(r) => r,
        _ => panic!("expected running"),
    };
    match running.tick(&mut game, true) {
        Witness::Win(win) => {
            let _running: Running = win.into_running();
        }
        _ => panic!("expected a win"),
    }
}

#[test]
fn input_outcomes_map_to_witnesses() {
    let (w, r) = witness_for_input(Ok(None), Running::cheat());
    assert!(matches!(w, Witness::Running(_)));
    assert!(r.is_ok());
    let (w, r) = witness_for_input(
        Ok(Some(GameControlFlow::GameOver(GameOverReason::OutOfFuel))),
        Running::cheat(),
    );
    assert!(matches!(w, Witness::GameOver(GameOverReason::OutOfFuel)));
    assert!(r.is_ok());
    let (w, _) = witness_for_input(Ok(Some(GameControlFlow::Menu(a_menu()))), Running::cheat());
    match w {
        Witness::Menu(m) => {
            assert_eq!(m.menu.text, "hello");
            assert!(matches!(m.cancel(), Witness::Running(_)));
        }
        _ => panic!("expected a menu"),
    }
}

#[test]
fn committing_a_menu_can_add_a_passenger() {
    let (mut game, _running) = new_game(Isaac64Rng::seed_from_u64(3), false);
    let (w, _) = witness_for_input(Ok(Some(GameControlFlow::Menu(a_menu()))), Running::cheat());
    let menu = match w {
        Witness::Menu(m) => m,
        _ => panic!("expected a menu"),
    };
    let e = Entity { index: 5, generation: 0 };
    let w = menu.commit(&mut game, MenuChoice::AddNpcToPassengers(e), Npc::Surveyor);
    assert!(matches!(w, Witness::Running(_)));
    assert_eq!(game.inner_ref().passengers(), &[Npc::Surveyor]);
    let (w, _) = witness_for_input(Ok(Some(GameControlFlow::Menu(a_menu()))), Running::cheat());
    let menu = match w {
        Witness::Menu(m) => m,
        _ => panic!("expected a menu"),
    };
    menu.commit(&mut game, MenuChoice::DontAddNpcToPassengers, Npc::Soldier);
    assert_eq!(game.inner_ref().passengers().len(), 1);
}

#[test]
fn running_game_round_trip() {
    let (mut game, running) = new_game(Isaac64Rng::seed_from_u64(4), false);
    let running = match running.tick(&mut game, false) {
        Witness::Running(r) => r,
        _ => panic!("expected running"),
    };
    let stored = game.into_running_game(running);
    let stored = RunningGame::into_game(stored);
    let (game, _running) = stored;
    assert_eq!(game.inner_ref().num_seats(), 1);
    let stored = RunningGame::new(game, Running::cheat());
    let _ = stored.into_game();
}
