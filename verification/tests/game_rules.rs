use boat_journey::data::{Junk, Npc};
use boat_journey::game::{
    grave_menu, Config, Entity, Game, GameControlFlow, GameOverReason, Input, MenuChoice,
    MenuImage, MoveDirection, RotateDirection, Stats, TurnAction, Victory, VictoryStats,
};
use boat_journey::geometry::CardinalDirection;
use boat_journey::text::decimal_string;
use rand::{Rng, SeedableRng};
use rand_isaac::Isaac64Rng;

fn new_game(seed: u64) -> Game {
    Game::new(Isaac64Rng::seed_from_u64(seed), false)
}

#[test]
fn decimal_strings() {
    assert_eq!(decimal_string(0), "0");
    assert_eq!(decimal_string(7), "7");
    assert_eq!(decimal_string(10), "10");
    assert_eq!(decimal_string(1234), "1234");
    assert_eq!(decimal_string(u64::MAX), u64::MAX.to_string());
}

#[test]
fn stats_start_values() {
    let s = Stats::new();
    assert_eq!(s.health.current_and_max(), (4, 4));
    assert_eq!(s.fuel.current_and_max(), (400, 400));
    assert_eq!(s.day.current_and_max(), (300, 1000));
    assert_eq!(s.junk.current_and_max(), (0, 5));
}

#[test]
fn config_default_is_plain() {
    let c = Config::default();
    assert!(c.omniscient.is_none());
    assert!(!c.demo);
    assert!(!c.debug);
}

#[test]
fn victory_text_is_epitaph() {
    let v = Victory { name: "Ada".to_string(), stats: VictoryStats { num_turns: 345 } };
    assert_eq!(v.text(), "Here lies Ada.\n\n\nThey reached the ocean after 345 turns.");
    assert_eq!(VictoryStats::new().num_turns, 0);
}

#[test]
fn grave_menu_shows_epitaph() {
    let v = Victory { name: "Bo".to_string(), stats: VictoryStats { num_turns: 0 } };
    match grave_menu(&v) {
        GameControlFlow::Menu(m) => {
            assert_eq!(m.text, "Here lies Bo.\n\n\nThey reached the ocean after 0 turns.");
            assert_eq!(m.choices, vec![MenuChoice::Leave]);
            assert_eq!(m.image, MenuImage::Grave);
        }
        _ => panic!("expected a menu"),
    }
}

#[test]
fn new_game_state() {
    let g = new_game(1);
    assert!(!g.is_driving());
    assert_eq!(g.num_seats(), 1);
    assert!(g.passengers().is_empty());
    assert!(g.messages().is_empty());
    assert_eq!(g.victory_stats().num_turns, 0);
    assert!(!g.has_been_on_boat() && !g.has_crossed_threshold() && !g.has_talked_to_npc());
    assert_eq!(g.stats().fuel.current(), 400);
    assert_eq!(g.num_empty_seats(), 1);
}

#[test]
fn seat_seed_is_first_draw_of_generator() {
    let g = new_game(42);
    let mut rng = Isaac64Rng::seed_from_u64(42);
    let first: u64 = rng.gen();
    assert_eq!(g.seat_rng_seed, first);
}

#[test]
fn day_runs_down_only_after_boarding() {
    let mut g = new_game(2);
    assert!(!g.pass_time(false));
    assert_eq!(g.stats().day.current(), 300);
    assert_eq!(g.victory_stats().num_turns, 1);
    g.has_been_on_boat = true;
    g.pass_time(false);
    assert_eq!(g.stats().day.current(), 299);
    assert_eq!(g.victory_stats().num_turns, 2);
}

#[test]
fn ghost_every_twentieth_night_turn_outside() {
    let mut g = new_game(3);
    g.stats.day.set_current(0);
    let mut spawns = Vec::new();
    for turn in 0..45u32 {
        if g.pass_time(false) {
            spawns.push(turn);
        }
    }
    assert_eq!(spawns, vec![0, 20, 40]);
    assert_eq!(g.night_turn_count, 45);
}

#[test]
fn going_inside_resets_night_count() {
    let mut g = new_game(4);
    g.stats.day.set_current(0);
    assert!(g.pass_time(false));
    assert!(!g.pass_time(false));
    assert_eq!(g.night_turn_count, 2);
    assert!(!g.pass_time(true));
    assert_eq!(g.night_turn_count, 0);
    assert!(g.pass_time(false));
    assert!(g.is_player_outside_at_night(false));
    assert!(!g.is_player_outside_at_night(true));
}

#[test]
fn fuel_runs_out_into_game_over() {
    let mut g = new_game(5);
    assert!(g.check_control_flow().is_none());
    g.stats.fuel.set_current(1);
    g.spend_fuel();
    assert_eq!(g.stats().fuel.current(), 0);
    match g.check_control_flow() {
        Some(GameControlFlow::GameOver(GameOverReason::OutOfFuel)) => {}
        _ => panic!("expected running out of fuel"),
    }
    g.spend_fuel();
    assert_eq!(g.stats().fuel.current(), 0);
}

#[test]
fn ghost_attacks_until_death() {
    let mut g = new_game(6);
    for _ in 0..3 {
        assert!(g.ghost_attack().is_none());
    }
    assert_eq!(g.stats().health.current(), 1);
    assert_eq!(g.messages().len(), 3);
    assert_eq!(g.messages()[0], "A chill runs down your spine. The ghost deals you 1 damage.");
    match g.ghost_attack() {
        Some(GameControlFlow::GameOver(GameOverReason::KilledByGhost)) => {}
        _ => panic!("expected death by ghost"),
    }
    g.take_damage();
    assert_eq!(g.stats().health.current(), 0);
}

#[test]
fn reaching_the_ocean_wins() {
    let g = new_game(7);
    assert!(matches!(g.handle_tick(true), Some(GameControlFlow::Win)));
    assert!(g.handle_tick(false).is_none());
}

#[test]
fn npc_menu_offers_a_seat() {
    let mut g = new_game(8);
    let e = Entity { index: 3, generation: 1 };
    match g.npc_menu(Npc::Surgeon, e) {
        GameControlFlow::Menu(m) => {
            assert_eq!(
                m.text,
                format!("{}\n\nThere is currently 1 empty seat on your boat.\n\n", Npc::Surgeon.text())
            );
            assert_eq!(
                m.choices,
                vec![MenuChoice::AddNpcToPassengers(e), MenuChoice::DontAddNpcToPassengers]
            );
            assert_eq!(m.image, MenuImage::Npc(Npc::Surgeon));
        }
        _ => panic!("expected a menu"),
    }
    assert!(g.has_talked_to_npc());
}

#[test]
fn npc_menu_counts_several_seats() {
    let mut g = new_game(9);
    g.num_seats = 3;
    let e = Entity { index: 0, generation: 0 };
    match g.npc_menu(Npc::Beast, e) {
        GameControlFlow::Menu(m) => assert_eq!(
            m.text,
            format!("{}\n\nThere are currently 3 empty seats on your boat.\n\n", Npc::Beast.text())
        ),
        _ => panic!("expected a menu"),
    }
}

#[test]
fn npc_menu_when_boat_is_full() {
    let mut g = new_game(10);
    g.add_npc_to_passengers(Npc::Soldier);
    assert_eq!(g.passengers(), &[Npc::Soldier]);
    assert_eq!(g.num_empty_seats(), 0);
    match g.npc_menu(Npc::Thief, Entity { index: 1, generation: 2 }) {
        GameControlFlow::Menu(m) => {
            assert_eq!(m.text, "I see that there is currently no room on your boat for me...\n\n");
            assert_eq!(m.choices, vec![MenuChoice::Leave]);
        }
        _ => panic!("expected a menu"),
    }
}

#[test]
fn townsperson_says_one_of_three_lines() {
    let lines = [
        "I think you would be happier if you went to the ocean.",
        "Why don't you take a trip to the ocean. I hear it's wonderful this time of year.",
        "It's time for you to head to the ocean.",
    ];
    let mut g = new_game(11);
    for _ in 0..10 {
        match g.townsperson_menu() {
            GameControlFlow::Menu(m) => {
                let rest = m.text.strip_prefix("Townsperson:\n\n").expect("prefix");
                assert!(lines.contains(&rest));
                assert_eq!(m.choices, vec![MenuChoice::SayNothing]);
                assert_eq!(m.image, MenuImage::Townsperson);
            }
            _ => panic!("expected a menu"),
        }
    }
}

#[test]
fn picking_up_junk_until_full() {
    let mut g = new_game(12);
    assert!(g.pick_up_item(Some(Junk::VinylRecord)));
    assert_eq!(g.messages().last().unwrap(), "You pick up the vinyl record");
    assert!(g.pick_up_item(None));
    assert_eq!(g.messages().len(), 1);
    for _ in 0..3 {
        assert!(g.pick_up_item(Some(Junk::VhsTape)));
    }
    assert_eq!(g.stats().junk.current(), 5);
    assert!(!g.pick_up_item(Some(Junk::VhsTape)));
    assert_eq!(g.stats().junk.current(), 5);
    assert_eq!(g.messages().len(), 4);
}

#[test]
fn inputs_while_driving_steer_the_boat() {
    let mut g = new_game(13);
    g.driving = true;
    assert_eq!(
        g.decide_input(Input::Walk(CardinalDirection::East), false),
        TurnAction::RotateBoat(RotateDirection::Right)
    );
    assert_eq!(
        g.decide_input(Input::Walk(CardinalDirection::West), false),
        TurnAction::RotateBoat(RotateDirection::Left)
    );
    assert_eq!(
        g.decide_input(Input::Walk(CardinalDirection::North), false),
        TurnAction::MoveBoat(MoveDirection::Forward)
    );
    assert_eq!(
        g.decide_input(Input::Walk(CardinalDirection::South), false),
        TurnAction::MoveBoat(MoveDirection::Backward)
    );
    assert_eq!(g.decide_input(Input::Wait, false), TurnAction::PassTime);
    assert_eq!(g.decide_input(Input::DriveToggle, true), TurnAction::Nothing);
    assert!(!g.is_driving());
}

#[test]
fn inputs_on_foot() {
    let mut g = new_game(14);
    assert_eq!(
        g.decide_input(Input::Walk(CardinalDirection::North), false),
        TurnAction::Walk(CardinalDirection::North)
    );
    assert_eq!(g.decide_input(Input::DriveToggle, false), TurnAction::Nothing);
    assert!(!g.is_driving());
    assert_eq!(g.decide_input(Input::DriveToggle, true), TurnAction::Nothing);
    assert!(g.is_driving());
}
