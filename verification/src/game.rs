//! The rules of a turn: time passing, day and night, fuel and health, the menus shown when the
//! player meets someone, and what each input asks of the world.
use crate::data::{junk_name, npc_text, DoorState, Junk, Npc};
use crate::geometry::{all_directions, CardinalDirection, Coord, Direction};
use crate::world2::{coord_in_range, coords_between, line_coords};
use crate::meter::{decreased, increased, Meter};
use crate::random::{choose_one, gen_u64};
use crate::text::{decimal, decimal_string};
use rand_isaac::Isaac64Rng;
use vstd::prelude::*;

verus! {

/// Marker for a menu left without a choice.
#[derive(Clone, Copy, Debug, PartialEq, Eq, Structural)]
pub struct Cancel;

/// Marker that lets the player see the whole map.
#[derive(Clone, Copy, Debug, PartialEq, Eq, Structural)]
pub struct Omniscient;

/// Options of a game session.
#[derive(Clone, Copy, Debug, PartialEq, Eq, Structural)]
pub struct Config {
    pub omniscient: Option<Omniscient>,
    pub demo: bool,
    pub debug: bool,
}

impl Default for Config {
    fn default() -> (c: Self)
        ensures
            c.omniscient is None,
            !c.demo,
            !c.debug,
    {
        Config { omniscient: None, demo: false, debug: false }
    }
}

/// Statistics of a finished journey.
#[derive(Clone, Copy, Debug, PartialEq, Eq, Structural)]
pub struct VictoryStats {
    pub num_turns: u64,
}

impl VictoryStats {
    /// Statistics of a journey that has not started: no turns taken.
    pub fn new() -> (s: Self)
        ensures
            s.num_turns == 0,
    {
        VictoryStats { num_turns: 0 }
    }
}

/// A past player who reached the ocean, remembered by a grave.
#[derive(Clone, Debug)]
pub struct Victory {
    pub name: String,
    pub stats: VictoryStats,
}

/// The epitaph on the grave of a player called `name` who reached the ocean after `num_turns`
/// turns.
pub open spec fn victory_text(name: Seq<char>, num_turns: u64) -> Seq<char> {
    "Here lies "@ + name + ".\n\n\nThey reached the ocean after "@ + decimal(num_turns as nat)
        + " turns."@
}

impl Victory {
    /// The epitaph on this player's grave.
    pub fn text(&self) -> (s: String)
        ensures
            s@ == victory_text(self.name@, self.stats.num_turns),
    {
        let turns = decimal_string(self.stats.num_turns);
        let s = String::from_str("Here lies ");
        let s = s.concat(self.name.as_str());
        let s = s.concat(".\n\n\nThey reached the ocean after ");
        let s = s.concat(turns.as_str());
        s.concat(" turns.")
    }
}

/// Why a game ended in defeat.
#[derive(Clone, Copy, Debug, PartialEq, Eq, Structural)]
pub enum GameOverReason {
    OutOfFuel,
    KilledByGhost,
}

/// An entity of the world: its slot and the generation of that slot.
#[derive(Clone, Copy, Debug, PartialEq, Eq, Hash, Structural)]
pub struct Entity {
    pub index: u32,
    pub generation: u64,
}

/// A choice offered by a menu.
#[derive(Clone, Copy, Debug, PartialEq, Eq, Structural)]
pub enum MenuChoice {
    SayNothing,
    Leave,
    AddNpcToPassengers(Entity),
    DontAddNpcToPassengers,
}

/// The picture shown beside a menu.
#[derive(Clone, Copy, Debug, PartialEq, Eq, Structural)]
pub enum MenuImage {
    Townsperson,
    Grave,
    Npc(Npc),
}

/// A menu: some text, a picture and the choices the player may make.
#[derive(Clone, Debug)]
pub struct Menu {
    pub choices: Vec<MenuChoice>,
    pub text: String,
    pub image: MenuImage,
}

/// What interrupts the normal flow of turns.
#[derive(Debug)]
pub enum GameControlFlow {
    GameOver(GameOverReason),
    Win,
    Menu(Menu),
}

/// A command from the player.
#[derive(Clone, Copy, Debug, PartialEq, Eq, Structural)]
pub enum Input {
    Walk(CardinalDirection),
    Wait,
    DriveToggle,
}

/// A way to turn the boat.
#[derive(Clone, Copy, Debug, PartialEq, Eq, Structural)]
pub enum RotateDirection {
    Left,
    Right,
}

/// A way to move the boat.
#[derive(Clone, Copy, Debug, PartialEq, Eq, Structural)]
pub enum MoveDirection {
    Forward,
    Backward,
}

/// What the world has to do for an input.
#[derive(Clone, Copy, Debug, PartialEq, Eq, Structural)]
pub enum TurnAction {
    RotateBoat(RotateDirection),
    MoveBoat(MoveDirection),
    Walk(CardinalDirection),
    PassTime,
    Nothing,
}

/// The player's meters.
#[derive(Clone, Debug)]
pub struct Stats {
    pub health: Meter,
    pub fuel: Meter,
    pub day: Meter,
    pub junk: Meter,
}

/// `m` holds `current` out of `max`.
pub open spec fn meter_is(m: Meter, current: u32, max: u32) -> bool {
    m.spec_current() == current && m.spec_max() == max
}

impl Stats {
    /// The meters at the start of a journey: full health and fuel, the first day three tenths
    /// gone, no junk.
    pub fn new() -> (s: Self)
        ensures
            meter_is(s.health, 4, 4),
            meter_is(s.fuel, 400, 400),
            meter_is(s.day, 300, 1000),
            meter_is(s.junk, 0, 5),
    {
        let day_max: u32 = 1000;
        let first_day_skip: u32 = 700;
        Stats {
            health: Meter::new(4, 4),
            fuel: Meter::new(400, 400),
            day: Meter::new(day_max - first_day_skip, day_max),
            junk: Meter::new(0, 5),
        }
    }
}

/// The error of an action that cannot be taken. No action fails at present, and outside this
/// crate no value of it can be made.
#[derive(Clone, Copy, Debug)]
pub struct ActionError {
    private: (),
}

/// The state of a journey that the rules of a turn read and change; the map and its entities
/// are kept by the caller.
pub struct Game {
    pub rng: Isaac64Rng,
    pub driving: bool,
    pub stats: Stats,
    pub has_been_on_boat: bool,
    pub has_crossed_threshold: bool,
    pub has_talked_to_npc: bool,
    pub night_turn_count: u32,
    pub messages: Vec<String>,
    pub victory_stats: VictoryStats,
    pub passengers: Vec<Npc>,
    pub num_seats: u32,
    pub seat_rng_seed: u64,
}

/// The message shown when a ghost hurts the player.
pub open spec fn ghost_message_text() -> Seq<char> {
    "A chill runs down your spine. The ghost deals you 1 damage."@
}

/// What townspeople say, one line of which is picked at random.
pub open spec fn townsperson_lines() -> Seq<Seq<char>> {
    seq![
        "I think you would be happier if you went to the ocean."@,
        "Why don't you take a trip to the ocean. I hear it's wonderful this time of year."@,
        "It's time for you to head to the ocean."@,
    ]
}

/// The text of the menu shown when the player meets a passenger `npc` while `empty` seats of
/// the boat are free.
pub open spec fn npc_menu_text(npc: Npc, empty: u32) -> Seq<char> {
    if empty == 0 {
        "I see that there is currently no room on your boat for me...\n\n"@
    } else if empty == 1 {
        npc_text(npc) + "\n\nThere is currently 1 empty seat on your boat.\n\n"@
    } else {
        npc_text(npc) + "\n\nThere are currently "@ + decimal(empty as nat) + " empty seats on your boat.\n\n"@
    }
}

/// The choices of the menu shown when the player meets the passenger `entity` while `empty`
/// seats are free.
pub open spec fn npc_menu_choices(entity: Entity, empty: u32) -> Seq<MenuChoice> {
    if empty == 0 {
        seq![MenuChoice::Leave]
    } else {
        seq![MenuChoice::AddNpcToPassengers(entity), MenuChoice::DontAddNpcToPassengers]
    }
}

/// `b` differs from `a` at most in its meters, messages, turn count and night count: the
/// generator is untouched too.
pub open spec fn same_journey(a: Game, b: Game) -> bool {
    &&& same_course(a, b)
    &&& b.rng == a.rng
}

/// `b` differs from `a` at most in its meters, messages, turn count, night count and the state
/// of its generator.
pub open spec fn same_course(a: Game, b: Game) -> bool {
    &&& b.driving == a.driving
    &&& b.has_been_on_boat == a.has_been_on_boat
    &&& b.has_crossed_threshold == a.has_crossed_threshold
    &&& b.has_talked_to_npc == a.has_talked_to_npc
    &&& b.passengers@ == a.passengers@
    &&& b.num_seats == a.num_seats
    &&& b.seat_rng_seed == a.seat_rng_seed
}

/// `b` has the same meters, messages and counts as `a`.
pub open spec fn same_record(a: Game, b: Game) -> bool {
    &&& b.stats.health == a.stats.health
    &&& b.stats.fuel == a.stats.fuel
    &&& b.stats.day == a.stats.day
    &&& b.stats.junk == a.stats.junk
    &&& b.messages@ == a.messages@
    &&& b.victory_stats == a.victory_stats
    &&& b.night_turn_count == a.night_turn_count
}

impl Game {
    /// The state at the start of a journey: driving exactly when the player starts on the
    /// boat's cell (`player_on_boat`), fresh meters, no message, no passenger, one seat, and the
    /// seed of the passengers' seating drawn from `rng`.
    pub fn new(rng: Isaac64Rng, player_on_boat: bool) -> (g: Game)
        ensures
            g.driving == player_on_boat,
            meter_is(g.stats.health, 4, 4),
            meter_is(g.stats.fuel, 400, 400),
            meter_is(g.stats.day, 300, 1000),
            meter_is(g.stats.junk, 0, 5),
            !g.has_been_on_boat,
            !g.has_crossed_threshold,
            !g.has_talked_to_npc,
            g.night_turn_count == 0,
            g.messages@.len() == 0,
            g.victory_stats.num_turns == 0,
            g.passengers@.len() == 0,
            g.num_seats == 1,
    {
        let mut rng = rng;
        let seat_rng_seed = gen_u64(&mut rng);
        Game {
            seat_rng_seed,
            rng,
            driving: player_on_boat,
            stats: Stats::new(),
            has_been_on_boat: false,
            has_crossed_threshold: false,
            has_talked_to_npc: false,
            night_turn_count: 0,
            messages: Vec::new(),
            victory_stats: VictoryStats::new(),
            passengers: Vec::new(),
            num_seats: 1,
        }
    }

    pub fn num_seats(&self) -> (n: u32)
        ensures
            n == self.num_seats,
    {
        self.num_seats
    }

    pub fn passengers(&self) -> (p: &[Npc])
        ensures
            p@ == self.passengers@,
    {
        self.passengers.as_slice()
    }

    /// The seats of the boat not taken by a passenger. There must be no more passengers than
    /// seats.
    pub fn num_empty_seats(&self) -> (n: u32)
        requires
            self.passengers@.len() <= self.num_seats,
        ensures
            n == self.num_seats - self.passengers@.len(),
    {
        self.num_seats - self.passengers.len() as u32
    }

    pub fn victory_stats(&self) -> (v: &VictoryStats)
        ensures
            *v == self.victory_stats,
    {
        &self.victory_stats
    }

    /// The player is out of doors (`player_inside` is false) once the day is over.
    pub fn is_player_outside_at_night(&self, player_inside: bool) -> (b: bool)
        ensures
            b == (self.stats.day.spec_current() == 0 && !player_inside),
    {
        self.stats.day.is_empty() && !player_inside
    }

    /// Ends a turn: one more turn taken, the day runs down once the player has been on the boat,
    /// and every twentieth turn spent outside at night, counting from the first, calls up a
    /// ghost. Returns whether a ghost is to be spawned. `player_inside` tells whether the
    /// player stands inside a building.
    pub fn pass_time(&mut self, player_inside: bool) -> (spawn_ghost: bool)
        requires
            old(self).victory_stats.num_turns < u64::MAX,
            old(self).night_turn_count < u32::MAX,
        ensures
            same_journey(*old(self), *final(self)),
            final(self).victory_stats.num_turns == old(self).victory_stats.num_turns + 1,
            final(self).stats.day.spec_max() == old(self).stats.day.spec_max(),
            final(self).stats.day.spec_current() == if old(self).has_been_on_boat {
                decreased(old(self).stats.day.spec_current() as int, 1)
            } else {
                old(self).stats.day.spec_current() as int
            },
            final(self).stats.health == old(self).stats.health,
            final(self).stats.fuel == old(self).stats.fuel,
            final(self).stats.junk == old(self).stats.junk,
            final(self).messages@ == old(self).messages@,
            ({
                let night = final(self).stats.day.spec_current() == 0 && !player_inside;
                &&& spawn_ghost == (night && old(self).night_turn_count % 20 == 0)
                &&& final(self).night_turn_count == if night {
                    old(self).night_turn_count + 1
                } else {
                    0
                }
            }),
    {
        self.victory_stats.num_turns = self.victory_stats.num_turns + 1;
        if self.has_been_on_boat {
            self.stats.day.decrease(1);
        }
        let mut spawn_ghost = false;
        if self.is_player_outside_at_night(player_inside) {
            if self.night_turn_count % 20 == 0 {
                spawn_ghost = true;
            }
            self.night_turn_count = self.night_turn_count + 1;
        } else {
            self.night_turn_count = 0;
        }
        spawn_ghost
    }

    /// Burns one unit of fuel.
    pub fn spend_fuel(&mut self)
        ensures
            same_journey(*old(self), *final(self)),
            final(self).stats.fuel.spec_max() == old(self).stats.fuel.spec_max(),
            final(self).stats.fuel.spec_current() == decreased(old(self).stats.fuel.spec_current() as int, 1),
            final(self).stats.health == old(self).stats.health,
            final(self).stats.day == old(self).stats.day,
            final(self).stats.junk == old(self).stats.junk,
            final(self).messages@ == old(self).messages@,
            final(self).victory_stats == old(self).victory_stats,
            final(self).night_turn_count == old(self).night_turn_count,
    {
        self.stats.fuel.decrease(1)
    }

    /// Takes one point of health.
    pub fn take_damage(&mut self)
        ensures
            same_journey(*old(self), *final(self)),
            final(self).stats.health.spec_max() == old(self).stats.health.spec_max(),
            final(self).stats.health.spec_current() == decreased(old(self).stats.health.spec_current() as int, 1),
            final(self).stats.fuel == old(self).stats.fuel,
            final(self).stats.day == old(self).stats.day,
            final(self).stats.junk == old(self).stats.junk,
            final(self).messages@ == old(self).messages@,
            final(self).victory_stats == old(self).victory_stats,
            final(self).night_turn_count == old(self).night_turn_count,
    {
        self.stats.health.decrease(1)
    }

    pub fn messages(&self) -> (m: &[String])
        ensures
            m@ == self.messages@,
    {
        self.messages.as_slice()
    }

    pub fn stats(&self) -> (s: &Stats)
        ensures
            *s == self.stats,
    {
        &self.stats
    }

    pub fn has_been_on_boat(&self) -> (b: bool)
        ensures
            b == self.has_been_on_boat,
    {
        self.has_been_on_boat
    }

    pub fn has_crossed_threshold(&self) -> (b: bool)
        ensures
            b == self.has_crossed_threshold,
    {
        self.has_crossed_threshold
    }

    pub fn has_talked_to_npc(&self) -> (b: bool)
        ensures
            b == self.has_talked_to_npc,
    {
        self.has_talked_to_npc
    }

    pub fn is_driving(&self) -> (b: bool)
        ensures
            b == self.driving,
    {
        self.driving
    }

    /// Adds the ghost's message to the log.
    pub fn ghost_message(&mut self)
        ensures
            same_journey(*old(self), *final(self)),
            final(self).messages@.len() == old(self).messages@.len() + 1,
            forall|i: int| 0 <= i < old(self).messages@.len() ==> final(self).messages@[i] == old(self).messages@[i],
            final(self).messages@.last()@ == ghost_message_text(),
            final(self).stats.health == old(self).stats.health,
            final(self).stats.fuel == old(self).stats.fuel,
            final(self).stats.day == old(self).stats.day,
            final(self).stats.junk == old(self).stats.junk,
            final(self).victory_stats == old(self).victory_stats,
            final(self).night_turn_count == old(self).night_turn_count,
    {
        let m = String::from_str("A chill runs down your spine. The ghost deals you 1 damage.");
        self.messages.push(m);
    }

    /// A ghost reaches the player: one point of damage and the ghost's message; the game is
    /// lost when that was the last point of health.
    pub fn ghost_attack(&mut self) -> (r: Option<GameControlFlow>)
        ensures
            same_journey(*old(self), *final(self)),
            final(self).stats.health.spec_max() == old(self).stats.health.spec_max(),
            final(self).stats.health.spec_current() == decreased(old(self).stats.health.spec_current() as int, 1),
            final(self).messages@.len() == old(self).messages@.len() + 1,
            forall|i: int| 0 <= i < old(self).messages@.len() ==> final(self).messages@[i] == old(self).messages@[i],
            final(self).messages@.last()@ == ghost_message_text(),
            final(self).stats.fuel == old(self).stats.fuel,
            final(self).stats.day == old(self).stats.day,
            final(self).stats.junk == old(self).stats.junk,
            final(self).victory_stats == old(self).victory_stats,
            final(self).night_turn_count == old(self).night_turn_count,
            final(self).stats.health.spec_current() == 0 <==> r matches Some(
                GameControlFlow::GameOver(GameOverReason::KilledByGhost),
            ),
            r is None || r matches Some(GameControlFlow::GameOver(GameOverReason::KilledByGhost)),
    {
        self.take_damage();
        self.ghost_message();
        if self.stats.health.is_empty() {
            return Some(GameControlFlow::GameOver(GameOverReason::KilledByGhost));
        }
        None
    }

    /// The game is lost once the fuel runs out.
    pub fn check_control_flow(&self) -> (r: Option<GameControlFlow>)
        ensures
            self.stats.fuel.spec_current() == 0 ==> r matches Some(
                GameControlFlow::GameOver(GameOverReason::OutOfFuel),
            ),
            self.stats.fuel.spec_current() != 0 ==> r is None,
    {
        if self.stats.fuel.is_empty() {
            return Some(GameControlFlow::GameOver(GameOverReason::OutOfFuel));
        }
        None
    }

    /// The player has reached the ocean (`player_in_ocean`): the game is won.
    pub fn handle_tick(&self, player_in_ocean: bool) -> (r: Option<GameControlFlow>)
        ensures
            player_in_ocean ==> r matches Some(GameControlFlow::Win),
            !player_in_ocean ==> r is None,
    {
        if player_in_ocean {
            return Some(GameControlFlow::Win);
        }
        None
    }

    /// Takes `npc` on board.
    pub fn add_npc_to_passengers(&mut self, npc: Npc)
        ensures
            final(self).passengers@ == old(self).passengers@.push(npc),
            final(self).driving == old(self).driving,
            final(self).num_seats == old(self).num_seats,
            final(self).rng == old(self).rng,
            final(self).seat_rng_seed == old(self).seat_rng_seed,
            final(self).has_been_on_boat == old(self).has_been_on_boat,
            final(self).has_crossed_threshold == old(self).has_crossed_threshold,
            final(self).has_talked_to_npc == old(self).has_talked_to_npc,
            same_record(*old(self), *final(self)),
    {
        self.passengers.push(npc);
    }

    /// The menu shown when the player walks into the passenger `npc` (the entity `entity`): an
    /// offer to come aboard with the number of free seats, or regrets when the boat is full.
    /// There must be no more passengers than seats.
    pub fn npc_menu(&mut self, npc: Npc, entity: Entity) -> (r: GameControlFlow)
        requires
            old(self).passengers@.len() <= old(self).num_seats,
        ensures
            final(self).has_talked_to_npc,
            final(self).driving == old(self).driving,
            final(self).has_been_on_boat == old(self).has_been_on_boat,
            final(self).has_crossed_threshold == old(self).has_crossed_threshold,
            final(self).passengers@ == old(self).passengers@,
            final(self).num_seats == old(self).num_seats,
            same_record(*old(self), *final(self)),
            ({
                let empty = (old(self).num_seats - old(self).passengers@.len()) as u32;
                r matches GameControlFlow::Menu(m) && m.text@ == npc_menu_text(npc, empty)
                    && m.choices@ == npc_menu_choices(entity, empty) && m.image == MenuImage::Npc(npc)
            }),
    {
        self.has_talked_to_npc = true;
        let num_empty_seats = self.num_empty_seats();
        let (text, choices) = if num_empty_seats == 0 {
            (
                String::from_str("I see that there is currently no room on your boat for me...\n\n"),
                vec![MenuChoice::Leave],
            )
        } else {
            let text = if num_empty_seats == 1 {
                npc.text().concat("\n\nThere is currently 1 empty seat on your boat.\n\n")
            } else {
                let count = decimal_string(num_empty_seats as u64);
                let t = npc.text().concat("\n\nThere are currently ");
                let t = t.concat(count.as_str());
                t.concat(" empty seats on your boat.\n\n")
            };
            (text, vec![MenuChoice::AddNpcToPassengers(entity), MenuChoice::DontAddNpcToPassengers])
        };
        let image = MenuImage::Npc(npc);
        proof {
            assert(choices@ == npc_menu_choices(entity, num_empty_seats));
        }
        GameControlFlow::Menu(Menu { choices, text, image })
    }

    /// The menu shown when the player walks into a townsperson, who says one of a few lines
    /// picked by the game's generator.
    pub fn townsperson_menu(&mut self) -> (r: GameControlFlow)
        ensures
            same_course(*old(self), *final(self)),
            same_record(*old(self), *final(self)),
            r matches GameControlFlow::Menu(m) && m.choices@ == seq![MenuChoice::SayNothing]
                && m.image == MenuImage::Townsperson && exists|k: int|
                0 <= k < 3 && m.text@ == "Townsperson:\n\n"@ + #[trigger] townsperson_lines()[k],
    {
        let text_options = vec![
            "I think you would be happier if you went to the ocean.",
            "Why don't you take a trip to the ocean. I hear it's wonderful this time of year.",
            "It's time for you to head to the ocean.",
        ];
        let text_str = match choose_one(&mut self.rng, &text_options) {
            Some(t) => t,
            None => "",
        };
        proof {
            assert(text_options@.len() == 3);
            let k = choose|k: int| 0 <= k < 3 && text_options@[k] == text_str;
            assert(text_str@ == townsperson_lines()[k]);
        }
        let text = String::from_str("Townsperson:\n\n").concat(text_str);
        GameControlFlow::Menu(Menu { choices: vec![MenuChoice::SayNothing], text, image: MenuImage::Townsperson })
    }

    /// Picks up the item the player stepped on, unless the junk meter is full: the meter goes
    /// up by one and, when the item is a piece of junk, a message names it. Returns whether the
    /// item was taken.
    pub fn pick_up_item(&mut self, junk: Option<Junk>) -> (taken: bool)
        requires
            old(self).stats.junk.spec_current() < u32::MAX,
        ensures
            same_journey(*old(self), *final(self)),
            taken == (old(self).stats.junk.spec_current() != old(self).stats.junk.spec_max()),
            final(self).stats.junk.spec_max() == old(self).stats.junk.spec_max(),
            final(self).stats.junk.spec_current() == if taken {
                increased(old(self).stats.junk.spec_current() as int, old(self).stats.junk.spec_max() as int, 1)
            } else {
                old(self).stats.junk.spec_current() as int
            },
            final(self).messages@ == if taken && junk is Some {
                old(self).messages@.push(final(self).messages@.last())
            } else {
                old(self).messages@
            },
            taken && junk is Some ==> final(self).messages@.last()@ == "You pick up the "@ + junk_name(junk->0),
            final(self).stats.health == old(self).stats.health,
            final(self).stats.fuel == old(self).stats.fuel,
            final(self).stats.day == old(self).stats.day,
            final(self).victory_stats == old(self).victory_stats,
            final(self).night_turn_count == old(self).night_turn_count,
    {
        if !self.stats.junk.is_full() {
            self.stats.junk.increase(1);
            if let Some(junk) = junk {
                let name = junk.name();
                let message = String::from_str("You pick up the ").concat(name.as_str());
                self.messages.push(message);
            }
            return true;
        }
        false
    }

    /// What the world is to do for `input`. While driving, east and west turn the boat
    /// clockwise and anticlockwise, north and south move it forwards and backwards, and the
    /// toggle leaves the controls. On foot, walking is walking and the toggle takes the
    /// controls when the player stands on them (`on_driving_coord`). Waiting passes time.
    pub fn decide_input(&mut self, input: Input, on_driving_coord: bool) -> (a: TurnAction)
        ensures
            same_record(*old(self), *final(self)),
            final(self).rng == old(self).rng,
            final(self).seat_rng_seed == old(self).seat_rng_seed,
            final(self).has_been_on_boat == old(self).has_been_on_boat,
            final(self).has_crossed_threshold == old(self).has_crossed_threshold,
            final(self).has_talked_to_npc == old(self).has_talked_to_npc,
            final(self).passengers@ == old(self).passengers@,
            final(self).num_seats == old(self).num_seats,
            final(self).driving == match input {
                Input::DriveToggle => !old(self).driving && on_driving_coord,
                _ => old(self).driving,
            },
            a == match input {
                Input::Wait => TurnAction::PassTime,
                Input::DriveToggle => TurnAction::Nothing,
                Input::Walk(d) => if old(self).driving {
                    match d {
                        CardinalDirection::East => TurnAction::RotateBoat(RotateDirection::Right),
                        CardinalDirection::West => TurnAction::RotateBoat(RotateDirection::Left),
                        CardinalDirection::North => TurnAction::MoveBoat(MoveDirection::Forward),
                        CardinalDirection::South => TurnAction::MoveBoat(MoveDirection::Backward),
                    }
                } else {
                    TurnAction::Walk(d)
                },
            },
    {
        if self.driving {
            match input {
                Input::Walk(CardinalDirection::East) => TurnAction::RotateBoat(RotateDirection::Right),
                Input::Walk(CardinalDirection::West) => TurnAction::RotateBoat(RotateDirection::Left),
                Input::Walk(CardinalDirection::North) => TurnAction::MoveBoat(MoveDirection::Forward),
                Input::Walk(CardinalDirection::South) => TurnAction::MoveBoat(MoveDirection::Backward),
                Input::DriveToggle => {
                    self.driving = false;
                    TurnAction::Nothing
                },
                Input::Wait => TurnAction::PassTime,
            }
        } else {
            match input {
                Input::Walk(direction) => TurnAction::Walk(direction),
                Input::DriveToggle => {
                    if on_driving_coord {
                        self.driving = true;
                    }
                    TurnAction::Nothing
                },
                Input::Wait => TurnAction::PassTime,
            }
        }
    }
}

/// What the player finds on the feature layer of the cell they walk towards.
#[derive(Clone, Debug)]
pub struct FeatureInfo {
    pub door_closed: bool,
    pub solid: bool,
    pub stairs_down: Option<usize>,
    pub stairs_up: bool,
    pub threshold: bool,
    pub grave: Option<Victory>,
}

/// The cell the player walks towards: whether it exists, and what lies on its layers.
#[derive(Clone, Debug)]
pub struct WalkTarget {
    pub in_world: bool,
    pub feature: Option<FeatureInfo>,
    pub water: bool,
    pub floor: bool,
    pub boat: bool,
}

/// The first part of a step: what happens before the player tries to move.
#[derive(Debug)]
pub enum WalkStep {
    /// A closed door is opened; the turn ends.
    OpenDoor,
    /// Something solid is in the way: an open door next to the player is closed, if there is
    /// one; the turn ends.
    Blocked,
    /// Stairs down to the dungeon with this index: the player moves onto them (see
    /// `Game::take_stairs_down`) and goes down.
    StairsDown(usize),
    /// Stairs up out of the dungeon.
    StairsUp,
    /// Open water: the player stays where they are and no time passes.
    Stay,
    /// A grave: its menu is shown.
    Menu(GameControlFlow),
    /// The player moves onto the cell.
    Move,
}

/// Who already stands on the cell the player tried to move onto.
#[derive(Clone, Copy, Debug, PartialEq, Eq, Structural)]
pub enum Occupant {
    HostileSpirit,
    UnimportantNpc,
    /// A passenger-to-be, not yet on the boat.
    Npc(Npc, Entity),
    Other,
}

/// The second part of a step: what ends it, whether the item on the cell is taken, and
/// whether a ghost is to be spawned.
#[derive(Debug)]
pub struct WalkOutcome {
    pub control_flow: Option<GameControlFlow>,
    pub take_item: bool,
    pub spawn_ghost: bool,
}

/// What a ghost does on its turn.
#[derive(Debug)]
pub enum GhostAction {
    /// It reaches the player and hurts them; the game may be over.
    Attack(Option<GameControlFlow>),
    /// It moves to this cell.
    MoveTo(Coord),
    /// It stands still.
    Stay,
}

/// The step a walk towards `target` starts with.
pub open spec fn walk_step_kind(t: WalkTarget) -> int {
    if t.feature matches Some(f) && f.door_closed {
        0
    } else if t.feature matches Some(f) && f.solid {
        1
    } else if t.feature matches Some(f) && f.stairs_down is Some {
        2
    } else if t.feature matches Some(f) && f.stairs_up {
        3
    } else if t.in_world && t.water && !t.floor && t.feature is None {
        4
    } else if t.feature matches Some(f) && f.grave is Some {
        5
    } else {
        6
    }
}

impl Game {
    /// Starts a step of the player onto `target`. A closed door is opened; a solid feature
    /// blocks; stairs lead down or up; open water stops the player. Otherwise stepping onto
    /// the boat records that the player has been on it and crossing a threshold records that
    /// too, before a grave shows its menu or the player moves.
    pub fn player_walk_step(&mut self, target: WalkTarget) -> (s: WalkStep)
        ensures
            same_record(*old(self), *final(self)),
            final(self).driving == old(self).driving,
            final(self).has_talked_to_npc == old(self).has_talked_to_npc,
            final(self).passengers@ == old(self).passengers@,
            final(self).num_seats == old(self).num_seats,
            final(self).has_been_on_boat == (old(self).has_been_on_boat || (walk_step_kind(target) >= 5
                && target.boat)),
            final(self).has_crossed_threshold == (old(self).has_crossed_threshold || (walk_step_kind(
                target,
            ) >= 5 && (target.feature matches Some(f) && f.threshold))),
            walk_step_kind(target) == 0 <==> s is OpenDoor,
            walk_step_kind(target) == 1 <==> s is Blocked,
            walk_step_kind(target) == 2 <==> s is StairsDown,
            walk_step_kind(target) == 2 ==> (target.feature matches Some(f) && s == WalkStep::StairsDown(
                f.stairs_down->0,
            )),
            walk_step_kind(target) == 3 <==> s is StairsUp,
            walk_step_kind(target) == 4 <==> s is Stay,
            walk_step_kind(target) == 5 <==> s is Menu,
            walk_step_kind(target) == 5 ==> ({
                &&& target.feature matches Some(f)
                &&& f.grave matches Some(v)
                &&& s matches WalkStep::Menu(GameControlFlow::Menu(m))
                &&& m.choices@ == seq![MenuChoice::Leave]
                &&& m.image == MenuImage::Grave
                &&& m.text@ == victory_text(v.name@, v.stats.num_turns)
            }),
            walk_step_kind(target) == 6 <==> s is Move,
    {
        let WalkTarget { in_world, feature, water, floor, boat } = target;
        if let Some(f) = &feature {
            if f.door_closed {
                return WalkStep::OpenDoor;
            }
            if f.solid {
                return WalkStep::Blocked;
            }
            if let Some(index) = f.stairs_down {
                return WalkStep::StairsDown(index);
            }
            if f.stairs_up {
                return WalkStep::StairsUp;
            }
        }
        if in_world && water && !floor && feature.is_none() {
            return WalkStep::Stay;
        }
        if boat {
            self.has_been_on_boat = true;
        }
        if let Some(f) = feature {
            if f.threshold {
                self.has_crossed_threshold = true;
            }
            if let Some(victory) = f.grave {
                return WalkStep::Menu(grave_menu(&victory));
            }
        }
        WalkStep::Move
    }

    /// The player steps onto stairs down (`WalkStep::StairsDown`). A ghost standing on them
    /// (`ghost_there`) hurts the player first, and the game is lost on the last point of health;
    /// otherwise the player goes down. No time passes. Returns the end of the game if it came.
    pub fn take_stairs_down(&mut self, ghost_there: bool) -> (r: Option<GameControlFlow>)
        ensures
            !ghost_there ==> r is None && *final(self) == *old(self),
            ghost_there ==> {
                &&& same_journey(*old(self), *final(self))
                &&& final(self).stats.health.spec_max() == old(self).stats.health.spec_max()
                &&& final(self).stats.health.spec_current() == decreased(old(self).stats.health.spec_current() as int, 1)
                &&& final(self).messages@.len() == old(self).messages@.len() + 1
                &&& forall|i: int| 0 <= i < old(self).messages@.len() ==> final(self).messages@[i] == old(self).messages@[i]
                &&& final(self).messages@.last()@ == ghost_message_text()
                &&& final(self).stats.fuel == old(self).stats.fuel
                &&& final(self).stats.day == old(self).stats.day
                &&& final(self).stats.junk == old(self).stats.junk
                &&& final(self).victory_stats == old(self).victory_stats
                &&& final(self).night_turn_count == old(self).night_turn_count
                &&& (final(self).stats.health.spec_current() == 0 <==> r matches Some(
                    GameControlFlow::GameOver(GameOverReason::KilledByGhost),
                ))
                &&& (r is None || r matches Some(GameControlFlow::GameOver(GameOverReason::KilledByGhost)))
            },
    {
        if ghost_there {
            self.ghost_attack()
        } else {
            None
        }
    }

    /// Ends a step once the player has tried to move. Bumping into a ghost hurts the player
    /// (the game is lost on the last point of health); bumping into a townsperson or a
    /// passenger-to-be opens their menu. Otherwise the item on the cell (`item`: none, or an
    /// item that may be a piece of junk) is picked up while the junk meter is not full, and
    /// time passes with the player inside or not (`player_inside`).
    pub fn player_walk_finish(
        &mut self,
        occupant: Option<Occupant>,
        item: Option<Option<Junk>>,
        player_inside: bool,
    ) -> (r: WalkOutcome)
        requires
            old(self).passengers@.len() <= old(self).num_seats,
            old(self).stats.junk.spec_current() < u32::MAX,
            old(self).victory_stats.num_turns < u64::MAX,
            old(self).night_turn_count < u32::MAX,
        ensures
            final(self).driving == old(self).driving,
            final(self).passengers@ == old(self).passengers@,
            final(self).num_seats == old(self).num_seats,
            final(self).has_been_on_boat == old(self).has_been_on_boat,
            final(self).has_crossed_threshold == old(self).has_crossed_threshold,
            occupant == Some(Occupant::HostileSpirit) ==> final(self).stats.health.spec_current() == decreased(
                old(self).stats.health.spec_current() as int,
                1,
            ),
            occupant == Some(Occupant::HostileSpirit) && final(self).stats.health.spec_current() == 0 ==> ({
                &&& r.control_flow matches Some(GameControlFlow::GameOver(GameOverReason::KilledByGhost))
                &&& !r.take_item
                &&& !r.spawn_ghost
                &&& final(self).victory_stats == old(self).victory_stats
            }),
            occupant == Some(Occupant::UnimportantNpc) ==> ({
                &&& same_record(*old(self), *final(self))
                &&& final(self).has_talked_to_npc == old(self).has_talked_to_npc
                &&& r.control_flow matches Some(GameControlFlow::Menu(m))
                &&& m.image == MenuImage::Townsperson
                &&& !r.take_item
                &&& !r.spawn_ghost
            }),
            occupant matches Some(Occupant::Npc(npc, entity)) ==> ({
                &&& same_record(*old(self), *final(self))
                &&& final(self).has_talked_to_npc
                &&& r.control_flow matches Some(GameControlFlow::Menu(m))
                &&& m.image == MenuImage::Npc(npc)
                &&& m.text@ == npc_menu_text(npc, (old(self).num_seats - old(self).passengers@.len()) as u32)
                &&& m.choices@ == npc_menu_choices(entity, (old(self).num_seats - old(self).passengers@.len()) as u32)
                &&& !r.take_item
                &&& !r.spawn_ghost
            }),
            (occupant is None || occupant == Some(Occupant::Other) || (occupant == Some(Occupant::HostileSpirit)
                && final(self).stats.health.spec_current() != 0)) ==> {
                &&& r.control_flow is None
                &&& r.take_item == (item is Some && old(self).stats.junk.spec_current()
                    != old(self).stats.junk.spec_max())
                &&& final(self).victory_stats.num_turns == old(self).victory_stats.num_turns + 1
                &&& final(self).stats.junk.spec_max() == old(self).stats.junk.spec_max()
                &&& final(self).stats.junk.spec_current() == if r.take_item {
                    increased(old(self).stats.junk.spec_current() as int, old(self).stats.junk.spec_max() as int, 1)
                } else {
                    old(self).stats.junk.spec_current() as int
                }
                &&& final(self).stats.fuel == old(self).stats.fuel
                &&& final(self).has_talked_to_npc == old(self).has_talked_to_npc
                &&& final(self).stats.day.spec_max() == old(self).stats.day.spec_max()
                &&& final(self).stats.day.spec_current() == if old(self).has_been_on_boat {
                    decreased(old(self).stats.day.spec_current() as int, 1)
                } else {
                    old(self).stats.day.spec_current() as int
                }
                &&& ({
                    let night = final(self).stats.day.spec_current() == 0 && !player_inside;
                    &&& r.spawn_ghost == (night && old(self).night_turn_count % 20 == 0)
                    &&& final(self).night_turn_count == if night {
                        old(self).night_turn_count + 1
                    } else {
                        0
                    }
                })
            },
            (occupant is None || occupant == Some(Occupant::Other)) ==> {
                &&& final(self).stats.health == old(self).stats.health
                &&& final(self).messages@ == if r.take_item && item matches Some(Some(_)) {
                    old(self).messages@.push(final(self).messages@.last())
                } else {
                    old(self).messages@
                }
                &&& item matches Some(Some(j)) ==> (r.take_item ==> final(self).messages@.last()@
                    == "You pick up the "@ + junk_name(j))
            },
    {
        match occupant {
            Some(Occupant::HostileSpirit) => {
                if let Some(cf) = self.ghost_attack() {
                    return WalkOutcome { control_flow: Some(cf), take_item: false, spawn_ghost: false };
                }
            },
            Some(Occupant::UnimportantNpc) => {
                let cf = self.townsperson_menu();
                return WalkOutcome { control_flow: Some(cf), take_item: false, spawn_ghost: false };
            },
            Some(Occupant::Npc(npc, entity)) => {
                let cf = self.npc_menu(npc, entity);
                return WalkOutcome { control_flow: Some(cf), take_item: false, spawn_ghost: false };
            },
            _ => {},
        }
        let mut take_item = false;
        if let Some(junk) = item {
            take_item = self.pick_up_item(junk);
        }
        let spawn_ghost = self.pass_time(player_inside);
        WalkOutcome { control_flow: None, take_item, spawn_ghost }
    }

    /// The turn of a ghost at `ghost` while the player, at `player`, is outside at night
    /// (`active`): it takes the first step of the straight line towards the player, and when
    /// that step is the player's cell it hurts the player instead of moving.
    pub fn ghost_turn(&mut self, active: bool, ghost: Coord, player: Coord) -> (a: GhostAction)
        requires
            coord_in_range(ghost, -1073741824, 1073741824),
            coord_in_range(player, -1073741824, 1073741824),
        ensures
            !active ==> a is Stay && *final(self) == *old(self),
            active && line_coords(ghost, player).len() <= 1 ==> a is Stay && *final(self) == *old(self),
            active && line_coords(ghost, player).len() > 1 && line_coords(ghost, player)[1] != player
                ==> a == GhostAction::MoveTo(line_coords(ghost, player)[1]) && *final(self) == *old(self),
            active && line_coords(ghost, player).len() > 1 && line_coords(ghost, player)[1] == player
                ==> a is Attack && final(self).stats.health.spec_current() == decreased(
                old(self).stats.health.spec_current() as int,
                1,
            ) && (final(self).stats.health.spec_current() == 0 <==> a matches GhostAction::Attack(
                Some(GameControlFlow::GameOver(GameOverReason::KilledByGhost)),
            )) && same_journey(*old(self), *final(self)) && final(self).stats.health.spec_max()
                == old(self).stats.health.spec_max() && final(self).messages@.len() == old(self).messages@.len() + 1
                && (forall|i: int| 0 <= i < old(self).messages@.len() ==> final(self).messages@[i] == old(self).messages@[i])
                && final(self).messages@.last()@ == ghost_message_text() && final(self).stats.fuel == old(self).stats.fuel
                && final(self).stats.day == old(self).stats.day && final(self).stats.junk == old(self).stats.junk
                && final(self).victory_stats == old(self).victory_stats && final(self).night_turn_count == old(
                self,
            ).night_turn_count,
    {
        if !active {
            return GhostAction::Stay;
        }
        let line = coords_between(ghost, player);
        if line.len() > 1 {
            let dest = line[1];
            if dest == player {
                let cf = self.ghost_attack();
                return GhostAction::Attack(cf);
            }
            return GhostAction::MoveTo(dest);
        }
        GhostAction::Stay
    }
}

/// What the ghost at `ghost` does on its turn while the player, at `player`, is outside at
/// night: it stays when the line between them has a single cell, hurts the player when the
/// line's next cell is the player's, and otherwise moves to that cell.
pub open spec fn ghost_action_for(ghost: Coord, player: Coord, a: GhostAction) -> bool {
    let line = line_coords(ghost, player);
    if line.len() <= 1 {
        a is Stay
    } else if line[1] == player {
        a is Attack
    } else {
        a == GhostAction::MoveTo(line[1])
    }
}

/// How many of the first `n` ghosts of `ghosts` reach the player at `player`.
pub open spec fn count_attacks(ghosts: Seq<Coord>, player: Coord, n: int) -> nat
    decreases n,
{
    if n <= 0 {
        0
    } else {
        count_attacks(ghosts, player, n - 1) + if line_coords(ghosts[n - 1], player).len() > 1
            && line_coords(ghosts[n - 1], player)[1] == player {
            1nat
        } else {
            0nat
        }
    }
}

impl Game {
    /// The game's part of turning or moving the boat (`action`), whether or not the world
    /// could place the boat again: time passes with the player inside or not
    /// (`player_inside`), and moving the boat forwards or backwards then burns one unit of
    /// fuel. Returns whether a ghost is to be spawned.
    pub fn boat_turn(&mut self, action: TurnAction, player_inside: bool) -> (spawn_ghost: bool)
        requires
            action is RotateBoat || action is MoveBoat,
            old(self).victory_stats.num_turns < u64::MAX,
            old(self).night_turn_count < u32::MAX,
        ensures
            same_journey(*old(self), *final(self)),
            final(self).victory_stats.num_turns == old(self).victory_stats.num_turns + 1,
            final(self).stats.day.spec_max() == old(self).stats.day.spec_max(),
            final(self).stats.day.spec_current() == if old(self).has_been_on_boat {
                decreased(old(self).stats.day.spec_current() as int, 1)
            } else {
                old(self).stats.day.spec_current() as int
            },
            final(self).stats.fuel.spec_max() == old(self).stats.fuel.spec_max(),
            final(self).stats.fuel.spec_current() == if action is MoveBoat {
                decreased(old(self).stats.fuel.spec_current() as int, 1)
            } else {
                old(self).stats.fuel.spec_current() as int
            },
            final(self).stats.health == old(self).stats.health,
            final(self).stats.junk == old(self).stats.junk,
            final(self).messages@ == old(self).messages@,
            ({
                let night = final(self).stats.day.spec_current() == 0 && !player_inside;
                &&& spawn_ghost == (night && old(self).night_turn_count % 20 == 0)
                &&& final(self).night_turn_count == if night {
                    old(self).night_turn_count + 1
                } else {
                    0
                }
            }),
    {
        let spawn_ghost = self.pass_time(player_inside);
        if let TurnAction::MoveBoat(_) = action {
            self.spend_fuel();
        }
        spawn_ghost
    }

    /// The part of a turn that the game takes by itself for `input` (see `decide_input`):
    /// turning or moving the boat passes time, and moving it burns one unit of fuel, whether or
    /// not the world can place the boat again; waiting passes time; taking or leaving the
    /// controls passes none. A step on foot is left to `player_walk_step` and
    /// `player_walk_finish`. `on_driving_coord` tells whether the player stands on the
    /// controls, `player_inside` whether they are inside a building. Returns the action and
    /// whether a ghost is to be spawned.
    pub fn start_turn(&mut self, input: Input, on_driving_coord: bool, player_inside: bool) -> (r: (TurnAction, bool))
        requires
            old(self).victory_stats.num_turns < u64::MAX,
            old(self).night_turn_count < u32::MAX,
        ensures
            final(self).driving == match input {
                Input::DriveToggle => !old(self).driving && on_driving_coord,
                _ => old(self).driving,
            },
            r.0 == match input {
                Input::Wait => TurnAction::PassTime,
                Input::DriveToggle => TurnAction::Nothing,
                Input::Walk(d) => if old(self).driving {
                    match d {
                        CardinalDirection::East => TurnAction::RotateBoat(RotateDirection::Right),
                        CardinalDirection::West => TurnAction::RotateBoat(RotateDirection::Left),
                        CardinalDirection::North => TurnAction::MoveBoat(MoveDirection::Forward),
                        CardinalDirection::South => TurnAction::MoveBoat(MoveDirection::Backward),
                    }
                } else {
                    TurnAction::Walk(d)
                },
            },
            final(self).rng == old(self).rng,
            final(self).has_been_on_boat == old(self).has_been_on_boat,
            final(self).has_crossed_threshold == old(self).has_crossed_threshold,
            final(self).has_talked_to_npc == old(self).has_talked_to_npc,
            final(self).passengers@ == old(self).passengers@,
            final(self).num_seats == old(self).num_seats,
            final(self).seat_rng_seed == old(self).seat_rng_seed,
            final(self).stats.health == old(self).stats.health,
            final(self).stats.junk == old(self).stats.junk,
            final(self).messages@ == old(self).messages@,
            final(self).stats.fuel.spec_max() == old(self).stats.fuel.spec_max(),
            final(self).stats.fuel.spec_current() == if r.0 is MoveBoat {
                decreased(old(self).stats.fuel.spec_current() as int, 1)
            } else {
                old(self).stats.fuel.spec_current() as int
            },
            r.0 is Walk || r.0 is Nothing ==> {
                &&& !r.1
                &&& final(self).stats.day == old(self).stats.day
                &&& final(self).victory_stats == old(self).victory_stats
                &&& final(self).night_turn_count == old(self).night_turn_count
            },
            r.0 is RotateBoat || r.0 is MoveBoat || r.0 is PassTime ==> {
                &&& final(self).victory_stats.num_turns == old(self).victory_stats.num_turns + 1
                &&& final(self).stats.day.spec_max() == old(self).stats.day.spec_max()
                &&& final(self).stats.day.spec_current() == if old(self).has_been_on_boat {
                    decreased(old(self).stats.day.spec_current() as int, 1)
                } else {
                    old(self).stats.day.spec_current() as int
                }
                &&& ({
                    let night = final(self).stats.day.spec_current() == 0 && !player_inside;
                    &&& r.1 == (night && old(self).night_turn_count % 20 == 0)
                    &&& final(self).night_turn_count == if night {
                        old(self).night_turn_count + 1
                    } else {
                        0
                    }
                })
            },
    {
        let action = self.decide_input(input, on_driving_coord);
        match action {
            TurnAction::RotateBoat(_) | TurnAction::MoveBoat(_) => {
                let spawn_ghost = self.boat_turn(action, player_inside);
                (action, spawn_ghost)
            },
            TurnAction::PassTime => {
                let spawn_ghost = self.pass_time(player_inside);
                (action, spawn_ghost)
            },
            _ => (action, false),
        }
    }

    /// What ends a turn: the outcome of the player's action (`action_flow`) if it has one, then
    /// that of the ghosts' turn (`ghost_flow`), and otherwise the loss when the fuel has run
    /// out.
    pub fn end_of_turn(
        &self,
        action_flow: Option<GameControlFlow>,
        ghost_flow: Option<GameControlFlow>,
    ) -> (r: Option<GameControlFlow>)
        ensures
            action_flow is Some ==> r == action_flow,
            action_flow is None && ghost_flow is Some ==> r == ghost_flow,
            action_flow is None && ghost_flow is None ==> (r is None <==> self.stats.fuel.spec_current() != 0),
            action_flow is None && ghost_flow is None && self.stats.fuel.spec_current() == 0 ==> r
                == Some(GameControlFlow::GameOver(GameOverReason::OutOfFuel)),
    {
        if action_flow.is_some() {
            return action_flow;
        }
        if ghost_flow.is_some() {
            return ghost_flow;
        }
        self.check_control_flow()
    }

    /// The ghosts' turn, while the player at `player` is outside at night (out of doors,
    /// `player_inside` false, once the day is over): each ghost of `ghosts` in turn moves
    /// towards the player or hurts them, until one takes the last point of health and the game
    /// is lost. Returns what each ghost did, in order, and the end of the game if it came.
    /// Otherwise nothing happens.
    pub fn ghosts_turn(&mut self, player_inside: bool, ghosts: &Vec<Coord>, player: Coord) -> (r: (
        Vec<GhostAction>,
        Option<GameControlFlow>,
    ))
        requires
            forall|k: int| 0 <= k < ghosts@.len() ==> coord_in_range(#[trigger] ghosts@[k], -1073741824, 1073741824),
            coord_in_range(player, -1073741824, 1073741824),
        ensures
            !(old(self).stats.day.spec_current() == 0 && !player_inside) ==> r.0@.len() == 0 && r.1 is None
                && *final(self) == *old(self),
            old(self).stats.day.spec_current() == 0 && !player_inside ==> {
                &&& r.0@.len() <= ghosts@.len()
                &&& forall|i: int| 0 <= i < r.0@.len() ==> #[trigger] ghost_action_for(ghosts@[i], player, r.0@[i])
                &&& same_journey(*old(self), *final(self))
                &&& final(self).stats.health.spec_max() == old(self).stats.health.spec_max()
                &&& final(self).stats.health.spec_current() == decreased(
                    old(self).stats.health.spec_current() as int,
                    count_attacks(ghosts@, player, r.0@.len() as int) as int,
                )
                &&& final(self).messages@.len() == old(self).messages@.len() + count_attacks(
                    ghosts@,
                    player,
                    r.0@.len() as int,
                )
                &&& forall|i: int|
                    0 <= i < old(self).messages@.len() ==> final(self).messages@[i] == old(self).messages@[i]
                &&& forall|i: int|
                    old(self).messages@.len() <= i < final(self).messages@.len() ==> final(self).messages@[i]@
                        == ghost_message_text()
                &&& final(self).stats.fuel == old(self).stats.fuel
                &&& final(self).stats.day == old(self).stats.day
                &&& final(self).stats.junk == old(self).stats.junk
                &&& final(self).victory_stats == old(self).victory_stats
                &&& final(self).night_turn_count == old(self).night_turn_count
                &&& r.1 is None ==> r.0@.len() == ghosts@.len() && (count_attacks(ghosts@, player, ghosts@.len() as int)
                    > 0 ==> final(self).stats.health.spec_current() > 0)
                &&& r.1 is Some ==> r.1 == Some(GameControlFlow::GameOver(GameOverReason::KilledByGhost))
                    && r.0@.len() >= 1 && r.0@.last() is Attack && final(self).stats.health.spec_current() == 0
            },
    {
        let mut actions: Vec<GhostAction> = Vec::new();
        let active = self.is_player_outside_at_night(player_inside);
        if !active {
            return (actions, None);
        }
        let ghost g0 = *self;
        let mut i: usize = 0;
        while i < ghosts.len()
            invariant
                g0 == *old(self),
                old(self).stats.day.spec_current() == 0 && !player_inside,
                i <= ghosts@.len(),
                actions@.len() == i,
                forall|k: int| 0 <= k < ghosts@.len() ==> coord_in_range(#[trigger] ghosts@[k], -1073741824, 1073741824),
                coord_in_range(player, -1073741824, 1073741824),
                forall|k: int| 0 <= k < i ==> #[trigger] ghost_action_for(ghosts@[k], player, actions@[k]),
                same_journey(g0, *self),
                self.stats.health.spec_max() == g0.stats.health.spec_max(),
                self.stats.health.spec_current() == decreased(
                    g0.stats.health.spec_current() as int,
                    count_attacks(ghosts@, player, i as int) as int,
                ),
                count_attacks(ghosts@, player, i as int) > 0 ==> self.stats.health.spec_current() > 0,
                self.messages@.len() == g0.messages@.len() + count_attacks(ghosts@, player, i as int),
                forall|k: int| 0 <= k < g0.messages@.len() ==> self.messages@[k] == g0.messages@[k],
                forall|k: int| g0.messages@.len() <= k < self.messages@.len() ==> self.messages@[k]@ == ghost_message_text(),
                self.stats.fuel == g0.stats.fuel,
                self.stats.day == g0.stats.day,
                self.stats.junk == g0.stats.junk,
                self.victory_stats == g0.victory_stats,
                self.night_turn_count == g0.night_turn_count,
                self.stats.day.spec_current() == 0,
            decreases ghosts@.len() - i,
        {
            let ghost before = *self;
            let a = self.ghost_turn(true, ghosts[i], player);
            let line = Ghost(line_coords(ghosts@[i as int], player));
            proof {
                assert(ghost_action_for(ghosts@[i as int], player, a));
                if !(line@.len() > 1 && line@[1] == player) {
                    assert(*self == before);
                }
            }
            let lost = match &a {
                GhostAction::Attack(Some(GameControlFlow::GameOver(GameOverReason::KilledByGhost))) => true,
                _ => false,
            };
            actions.push(a);
            if lost {
                proof {
                    assert(actions@.last() is Attack);
                }
                return (actions, Some(GameControlFlow::GameOver(GameOverReason::KilledByGhost)));
            }
            i = i + 1;
        }
        (actions, None)
    }
}

/// The door that a player blocked by something solid closes: among the eight cells around the
/// player, in the order of `Direction::all` (clockwise from north), the first whose feature is
/// an open door. `doors` holds, in that order, the door state of each of those cells' features
/// (`None` where the feature is no door, or where there is none).
pub fn door_to_close(doors: &Vec<Option<DoorState>>) -> (r: Option<Direction>)
    requires
        doors@.len() == 8,
    ensures
        r is None <==> forall|k: int| 0 <= k < 8 ==> doors@[k] != Some(DoorState::Open),
        r matches Some(d) ==> exists|k: int|
            0 <= k < 8 && all_directions()[k] == d && doors@[k] == Some(DoorState::Open) && forall|j: int|
                0 <= j < k ==> doors@[j] != Some(DoorState::Open),
{
    let directions = Direction::all();
    let mut k: usize = 0;
    while k < 8
        invariant
            k <= 8,
            doors@.len() == 8,
            directions@ == all_directions(),
            forall|j: int| 0 <= j < k ==> doors@[j] != Some(DoorState::Open),
        decreases 8 - k,
    {
        match doors[k] {
            Some(DoorState::Open) => {
                return Some(directions[k]);
            },
            _ => {},
        }
        k = k + 1;
    }
    None
}

/// The menu shown when the player walks into the grave of a past player.
pub fn grave_menu(victory: &Victory) -> (r: GameControlFlow)
    ensures
        r matches GameControlFlow::Menu(m) && m.choices@ == seq![MenuChoice::Leave] && m.image
            == MenuImage::Grave && m.text@ == victory_text(victory.name@, victory.stats.num_turns),
{
    GameControlFlow::Menu(Menu { choices: vec![MenuChoice::Leave], text: victory.text(), image: MenuImage::Grave })
}

} // verus!
