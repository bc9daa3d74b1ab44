//! Witnesses of the state a game is in. A `Running` value can only be obtained from the game's
//! own transitions, so code that holds one knows that the game expects an input.
use crate::game::{
    ActionError, Game as InnerGame, GameControlFlow, same_record, GameOverReason, Menu as GameMenu, MenuChoice,
};
use crate::data::Npc;
use rand_isaac::Isaac64Rng;
use vstd::prelude::*;

verus! {

/// A game session, reachable only through witnesses.
pub struct Game {
    inner_game: InnerGame,
}

/// A game stored while no witness for it is held.
pub struct RunningGame {
    game: InnerGame,
}

#[derive(Debug)]
struct Private;

/// The game expects an input.
#[derive(Debug)]
pub struct Running(Private);

/// The player has reached the ocean.
#[derive(Debug)]
pub struct Win(Private);

/// A menu is open.
#[derive(Debug)]
pub struct Menu {
    private: Private,
    pub menu: GameMenu,
}

/// The player is aiming the ability of a passenger.
#[derive(Debug)]
pub struct Aim {
    private: Private,
    pub npc: Npc,
}

/// The state the game is in after a transition.
#[derive(Debug)]
pub enum Witness {
    Running(Running),
    GameOver(GameOverReason),
    Win(Win),
    Menu(Menu),
    Aim(Aim),
}

/// `w` is the witness for the control flow `cf`: running when there is none, and otherwise the
/// game over, win or menu that it names.
pub open spec fn witness_for(cf: Option<GameControlFlow>, w: Witness) -> bool {
    match cf {
        None => w is Running,
        Some(GameControlFlow::GameOver(reason)) => w == Witness::GameOver(reason),
        Some(GameControlFlow::Win) => w is Win,
        Some(GameControlFlow::Menu(menu)) => w matches Witness::Menu(m) && m.spec_menu() == menu,
    }
}

impl Witness {
    fn running(private: Private) -> (w: Self)
        ensures
            w is Running,
    {
        Witness::Running(Running(private))
    }
}

impl RunningGame {
    /// The stored game.
    pub closed spec fn spec_game(&self) -> InnerGame {
        self.game
    }

    /// Stores a game while its witness is given up.
    pub fn new(game: Game, running: Running) -> (r: Self)
        ensures
            r.spec_game() == game.spec_inner(),
    {
        let _ = running;
        RunningGame { game: game.inner_game }
    }

    /// Takes a stored game back, with the witness that it expects an input.
    pub fn into_game(self) -> (r: (Game, Running))
        ensures
            r.0.spec_inner() == self.spec_game(),
    {
        (Game { inner_game: self.game }, Running(Private))
    }
}

impl Menu {
    /// The menu that is open.
    pub closed spec fn spec_menu(&self) -> GameMenu {
        self.menu
    }

    /// Makes the menu's choice: a passenger who was offered a seat (`npc`, the passenger that
    /// the chosen entity stands for) comes on board; the menu is closed either way.
    pub fn commit(self, game: &mut Game, choice: MenuChoice, npc: Npc) -> (w: Witness)
        ensures
            w is Running,
            final(game).spec_inner().passengers@ == if choice is AddNpcToPassengers {
                old(game).spec_inner().passengers@.push(npc)
            } else {
                old(game).spec_inner().passengers@
            },
            final(game).spec_inner().num_seats == old(game).spec_inner().num_seats,
            final(game).spec_inner().driving == old(game).spec_inner().driving,
            final(game).spec_inner().rng == old(game).spec_inner().rng,
            final(game).spec_inner().seat_rng_seed == old(game).spec_inner().seat_rng_seed,
            final(game).spec_inner().has_been_on_boat == old(game).spec_inner().has_been_on_boat,
            final(game).spec_inner().has_crossed_threshold == old(game).spec_inner().has_crossed_threshold,
            final(game).spec_inner().has_talked_to_npc == old(game).spec_inner().has_talked_to_npc,
            same_record(old(game).spec_inner(), final(game).spec_inner()),
    {
        let Menu { private, .. } = self;
        match choice {
            MenuChoice::AddNpcToPassengers(_) => game.inner_game.add_npc_to_passengers(npc),
            _ => {},
        }
        Witness::running(private)
    }

    /// Closes the menu without choosing.
    pub fn cancel(self) -> (w: Witness)
        ensures
            w is Running,
    {
        let Menu { private, .. } = self;
        Witness::running(private)
    }
}

impl Aim {
    /// Stops aiming.
    pub fn cancel(self) -> (w: Witness)
        ensures
            w is Running,
    {
        let Aim { private, .. } = self;
        Witness::running(private)
    }
}

/// Starts a game whose generator is `rng`, with the witness that it expects an input.
pub fn new_game(rng: Isaac64Rng, player_on_boat: bool) -> (r: (Game, Running))
    ensures
        r.0.spec_inner().driving == player_on_boat,
        r.0.spec_inner().victory_stats.num_turns == 0,
        r.0.spec_inner().passengers@.len() == 0,
{
    let g = Game { inner_game: InnerGame::new(rng, player_on_boat) };
    (g, Running(Private))
}

impl Win {
    /// Goes on playing after a win.
    pub fn into_running(self) -> (r: Running) {
        Running(self.0)
    }
}

impl Running {
    /// A witness made without any transition, for code that knows the game expects an input.
    pub fn cheat() -> (r: Self) {
        Running(Private)
    }

    pub fn into_witness(self) -> (w: Witness)
        ensures
            w is Running,
    {
        Witness::Running(self)
    }

    /// Lets time pass in real time: the game is won once the player is in the ocean
    /// (`player_in_ocean`), and otherwise still running.
    pub fn tick(self, game: &mut Game, player_in_ocean: bool) -> (w: Witness)
        ensures
            player_in_ocean ==> w is Win,
            !player_in_ocean ==> w is Running,
    {
        let Running(private) = self;
        let control_flow = game.inner_game.handle_tick(player_in_ocean);
        handle_control_flow(control_flow, private)
    }
}

/// The witness for the control flow a transition produced.
fn handle_control_flow(control_flow: Option<GameControlFlow>, private: Private) -> (w: Witness)
    ensures
        witness_for(control_flow, w),
{
    match control_flow {
        None => Witness::running(private),
        Some(GameControlFlow::GameOver(reason)) => Witness::GameOver(reason),
        Some(GameControlFlow::Win) => Witness::Win(Win(private)),
        Some(GameControlFlow::Menu(menu)) => Witness::Menu(Menu { private, menu }),
    }
}

/// The witness and result for the outcome of an input. An input never wins the game (the game
/// would stop on it): winning is only seen by `tick`.
pub fn witness_for_input(
    outcome: Result<Option<GameControlFlow>, ActionError>,
    running: Running,
) -> (r: (Witness, Result<(), ActionError>))
    requires
        !(outcome matches Ok(Some(GameControlFlow::Win))),
    ensures
        match outcome {
            Err(e) => r.0 is Running && r.1 == Err::<(), ActionError>(e),
            Ok(cf) => witness_for(cf, r.0) && r.1 is Ok,
        },
{
    let Running(private) = running;
    match outcome {
        Err(e) => (Witness::running(private), Err(e)),
        Ok(None) => (Witness::running(private), Ok(())),
        Ok(Some(GameControlFlow::GameOver(reason))) => (Witness::GameOver(reason), Ok(())),
        Ok(Some(GameControlFlow::Menu(menu))) => (Witness::Menu(Menu { private, menu }), Ok(())),
        Ok(Some(GameControlFlow::Win)) => (Witness::Win(Win(private)), Ok(())),
    }
}

impl Game {
    /// The state of the game.
    pub closed spec fn spec_inner(&self) -> InnerGame {
        self.inner_game
    }

    /// The state of the game.
    pub fn inner_ref(&self) -> (g: &InnerGame)
        ensures
            *g == self.spec_inner(),
    {
        &self.inner_game
    }

    /// Stores the game while its witness is given up.
    pub fn into_running_game(self, running: Running) -> (r: RunningGame)
        ensures
            r.spec_game() == self.spec_inner(),
    {
        RunningGame::new(self, running)
    }
}

} // verus!
