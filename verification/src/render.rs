//! How a tile of the map is drawn: its character and the inks of its foreground and
//! background, for a front end to turn into colours.
use crate::data::{Npc, Tile};
use vstd::prelude::*;

verus! {

/// An ink a cell is drawn with.
#[derive(Clone, Copy, Debug, PartialEq, Eq, Structural)]
pub enum Ink {
    /// The murky green of the ground, opaque.
    MurkyGreen,
    /// Opaque black.
    Black,
    /// A grey of the given level, with the given opacity.
    Grey { level: u8, alpha: u8 },
    /// White with the given opacity, laid over opaque murky green.
    WhiteOverGreen { alpha: u8 },
}

/// How a cell is drawn: a character, whether it is bold and underlined (`None` leaves that to
/// the front end), and the inks of its foreground and background.
#[derive(Clone, Copy, Debug, PartialEq, Eq, Structural)]
pub struct RenderCell {
    pub character: char,
    pub bold: Option<bool>,
    pub underline: Option<bool>,
    pub foreground: Ink,
    pub background: Ink,
}

/// A bold character in white of opacity `alpha` laid over murky green, on murky green.
pub open spec fn over_green(character: char, alpha: u8) -> RenderCell {
    RenderCell {
        character,
        bold: Some(true),
        underline: None,
        foreground: Ink::WhiteOverGreen { alpha },
        background: Ink::MurkyGreen,
    }
}

/// A character in opaque white, bold or not as `bold` says, on murky green.
pub open spec fn white_on_green(character: char, bold: Option<bool>) -> RenderCell {
    RenderCell {
        character,
        bold,
        underline: None,
        foreground: Ink::Grey { level: 255, alpha: 255 },
        background: Ink::MurkyGreen,
    }
}

/// A plain character in light grey on murky green: the look of the ground and what is built
/// on it.
pub open spec fn ground(character: char) -> RenderCell {
    RenderCell {
        character,
        bold: Some(false),
        underline: None,
        foreground: Ink::Grey { level: 187, alpha: 255 },
        background: Ink::MurkyGreen,
    }
}

/// How `tile` is drawn; `current` tells whether the cell is seen now rather than remembered,
/// and the boat and the characters are drawn with the opacities `boat_opacity` and
/// `player_opacity`.
pub open spec fn tile_render_spec(tile: Tile, current: bool, boat_opacity: u8, player_opacity: u8) -> RenderCell {
    match tile {
        Tile::Player => over_green('@', player_opacity),
        Tile::BoatControls => over_green('\u{2591}', boat_opacity),
        Tile::BoatEdge => over_green('#', boat_opacity),
        Tile::BoatFloor => over_green('.', boat_opacity),
        Tile::Beast => over_green('b', 255),
        Tile::Phantom => over_green('g', 255),
        Tile::Grave => over_green('\u{2584}', 255),
        Tile::Water1 => ground(if current { '~' } else { ' ' }),
        Tile::Water2 => ground(' '),
        Tile::Floor => ground('.'),
        Tile::BurntFloor => RenderCell {
            character: '.',
            bold: None,
            underline: None,
            foreground: Ink::Grey { level: 63, alpha: 255 },
            background: Ink::Black,
        },
        Tile::Wall => ground('\u{2588}'),
        Tile::DoorClosed => ground('+'),
        Tile::DoorOpen => ground('-'),
        Tile::Rock => ground('%'),
        Tile::Board => ground('='),
        Tile::Tree => ground('\u{2663}'),
        Tile::UnimportantNpc => white_on_green('&', None),
        Tile::StairsDown => white_on_green('>', Some(true)),
        Tile::StairsUp => white_on_green('<', Some(true)),
        Tile::Junk => white_on_green('*', Some(true)),
        Tile::Button => white_on_green('/', Some(true)),
        Tile::ButtonPressed => white_on_green('\\', Some(true)),
        Tile::Shop => white_on_green('$', Some(true)),
        Tile::Npc(_) => RenderCell {
            character: '@',
            bold: Some(false),
            underline: Some(false),
            foreground: Ink::Grey { level: 255, alpha: player_opacity },
            background: Ink::MurkyGreen,
        },
    }
}

fn over_green_cell(character: char, alpha: u8) -> (r: RenderCell)
    ensures
        r == over_green(character, alpha),
{
    RenderCell {
        character,
        bold: Some(true),
        underline: None,
        foreground: Ink::WhiteOverGreen { alpha },
        background: Ink::MurkyGreen,
    }
}

fn white_on_green_cell(character: char, bold: Option<bool>) -> (r: RenderCell)
    ensures
        r == white_on_green(character, bold),
{
    RenderCell { character, bold, underline: None, foreground: Ink::Grey { level: 255, alpha: 255 }, background: Ink::MurkyGreen }
}

fn ground_cell(character: char) -> (r: RenderCell)
    ensures
        r == ground(character),
{
    RenderCell {
        character,
        bold: Some(false),
        underline: None,
        foreground: Ink::Grey { level: 187, alpha: 255 },
        background: Ink::MurkyGreen,
    }
}

/// How `tile` is drawn: the boat and the player stand out in bold white over the green, faded
/// by their opacities; the ground is light grey; water is blank unless seen now, when the
/// first kind of water shows a wave.
pub fn tile_to_render_cell(tile: Tile, current: bool, boat_opacity: u8, player_opacity: u8) -> (r: RenderCell)
    ensures
        r == tile_render_spec(tile, current, boat_opacity, player_opacity),
        tile == Tile::DoorClosed ==> r.character == '+',
        tile == Tile::DoorOpen ==> r.character == '-',
{
    match tile {
        Tile::Player => over_green_cell('@', player_opacity),
        Tile::BoatControls => over_green_cell('\u{2591}', boat_opacity),
        Tile::BoatEdge => over_green_cell('#', boat_opacity),
        Tile::BoatFloor => over_green_cell('.', boat_opacity),
        Tile::Beast => over_green_cell('b', 255),
        Tile::Phantom => over_green_cell('g', 255),
        Tile::Grave => over_green_cell('\u{2584}', 255),
        Tile::Water1 => ground_cell(if current { '~' } else { ' ' }),
        Tile::Water2 => ground_cell(' '),
        Tile::Floor => ground_cell('.'),
        Tile::BurntFloor => RenderCell {
            character: '.',
            bold: None,
            underline: None,
            foreground: Ink::Grey { level: 63, alpha: 255 },
            background: Ink::Black,
        },
        Tile::Wall => ground_cell('\u{2588}'),
        Tile::DoorClosed => ground_cell('+'),
        Tile::DoorOpen => ground_cell('-'),
        Tile::Rock => ground_cell('%'),
        Tile::Board => ground_cell('='),
        Tile::Tree => ground_cell('\u{2663}'),
        Tile::UnimportantNpc => white_on_green_cell('&', None),
        Tile::StairsDown => white_on_green_cell('>', Some(true)),
        Tile::StairsUp => white_on_green_cell('<', Some(true)),
        Tile::Junk => white_on_green_cell('*', Some(true)),
        Tile::Button => white_on_green_cell('/', Some(true)),
        Tile::ButtonPressed => white_on_green_cell('\\', Some(true)),
        Tile::Shop => white_on_green_cell('$', Some(true)),
        Tile::Npc(_) => RenderCell {
            character: '@',
            bold: Some(false),
            underline: Some(false),
            foreground: Ink::Grey { level: 255, alpha: player_opacity },
            background: Ink::MurkyGreen,
        },
    }
}


/// The character each tile is drawn with, whatever the opacities: the player and the
/// passengers-to-be as `@`, the boat as `#` edges, `.` floor and shaded controls, a closed door
/// as `+` and an open one as `-`, walls as full blocks, and the first kind of water as a wave
/// only while it is seen.
pub proof fn law_tile_glyphs(current: bool, boat_opacity: u8, player_opacity: u8, npc: Npc)
    ensures
        tile_render_spec(Tile::Player, current, boat_opacity, player_opacity).character == '@',
        tile_render_spec(Tile::BoatControls, current, boat_opacity, player_opacity).character == '\u{2591}',
        tile_render_spec(Tile::BoatEdge, current, boat_opacity, player_opacity).character == '#',
        tile_render_spec(Tile::BoatFloor, current, boat_opacity, player_opacity).character == '.',
        tile_render_spec(Tile::Beast, current, boat_opacity, player_opacity).character == 'b',
        tile_render_spec(Tile::Phantom, current, boat_opacity, player_opacity).character == 'g',
        tile_render_spec(Tile::Grave, current, boat_opacity, player_opacity).character == '\u{2584}',
        tile_render_spec(Tile::Water1, true, boat_opacity, player_opacity).character == '~',
        tile_render_spec(Tile::Water1, false, boat_opacity, player_opacity).character == ' ',
        tile_render_spec(Tile::Water2, current, boat_opacity, player_opacity).character == ' ',
        tile_render_spec(Tile::Floor, current, boat_opacity, player_opacity).character == '.',
        tile_render_spec(Tile::BurntFloor, current, boat_opacity, player_opacity).character == '.',
        tile_render_spec(Tile::Wall, current, boat_opacity, player_opacity).character == '\u{2588}',
        tile_render_spec(Tile::DoorClosed, current, boat_opacity, player_opacity).character == '+',
        tile_render_spec(Tile::DoorOpen, current, boat_opacity, player_opacity).character == '-',
        tile_render_spec(Tile::Rock, current, boat_opacity, player_opacity).character == '%',
        tile_render_spec(Tile::Board, current, boat_opacity, player_opacity).character == '=',
        tile_render_spec(Tile::Tree, current, boat_opacity, player_opacity).character == '\u{2663}',
        tile_render_spec(Tile::UnimportantNpc, current, boat_opacity, player_opacity).character == '&',
        tile_render_spec(Tile::StairsDown, current, boat_opacity, player_opacity).character == '>',
        tile_render_spec(Tile::StairsUp, current, boat_opacity, player_opacity).character == '<',
        tile_render_spec(Tile::Junk, current, boat_opacity, player_opacity).character == '*',
        tile_render_spec(Tile::Button, current, boat_opacity, player_opacity).character == '/',
        tile_render_spec(Tile::ButtonPressed, current, boat_opacity, player_opacity).character == '\\',
        tile_render_spec(Tile::Shop, current, boat_opacity, player_opacity).character == '$',
        tile_render_spec(Tile::Npc(npc), current, boat_opacity, player_opacity).character == '@',
{
}

/// Doors are drawn like the ground they stand on, light grey on murky green, and the two
/// states of a door never look alike: a closed door is `+`, an open one `-`.
pub proof fn law_doors_show_their_state(current: bool, boat_opacity: u8, player_opacity: u8)
    ensures
        ({
            let closed = tile_render_spec(Tile::DoorClosed, current, boat_opacity, player_opacity);
            let open = tile_render_spec(Tile::DoorOpen, current, boat_opacity, player_opacity);
            &&& closed.character == '+'
            &&& open.character == '-'
            &&& closed.character != open.character
            &&& closed.foreground == Ink::Grey { level: 187, alpha: 255 }
            &&& open.foreground == Ink::Grey { level: 187, alpha: 255 }
            &&& closed.background == Ink::MurkyGreen
            &&& open.background == Ink::MurkyGreen
        }),
{
}


/// How strongly each tile stands out, whatever its character: the player is white faded by the
/// player's opacity and the boat by the boat's, both bold over murky green; the passengers-to-be
/// are white at the player's opacity; the ground and what is built on it is plain light grey;
/// burnt floor is dark grey on black; everything else is opaque white on murky green.
pub proof fn law_tile_inks(current: bool, boat_opacity: u8, player_opacity: u8, npc: Npc)
    ensures
        tile_render_spec(Tile::Player, current, boat_opacity, player_opacity).foreground
            == (Ink::WhiteOverGreen { alpha: player_opacity }),
        tile_render_spec(Tile::BoatEdge, current, boat_opacity, player_opacity).foreground
            == (Ink::WhiteOverGreen { alpha: boat_opacity }),
        tile_render_spec(Tile::BoatFloor, current, boat_opacity, player_opacity).foreground
            == (Ink::WhiteOverGreen { alpha: boat_opacity }),
        tile_render_spec(Tile::BoatControls, current, boat_opacity, player_opacity).foreground
            == (Ink::WhiteOverGreen { alpha: boat_opacity }),
        tile_render_spec(Tile::Player, current, boat_opacity, player_opacity).bold == Some(true),
        tile_render_spec(Tile::Npc(npc), current, boat_opacity, player_opacity).foreground == (Ink::Grey {
            level: 255,
            alpha: player_opacity,
        }),
        tile_render_spec(Tile::Floor, current, boat_opacity, player_opacity).foreground == (Ink::Grey {
            level: 187,
            alpha: 255,
        }),
        tile_render_spec(Tile::Wall, current, boat_opacity, player_opacity).foreground == (Ink::Grey {
            level: 187,
            alpha: 255,
        }),
        tile_render_spec(Tile::Wall, current, boat_opacity, player_opacity).bold == Some(false),
        tile_render_spec(Tile::BurntFloor, current, boat_opacity, player_opacity).foreground == (Ink::Grey {
            level: 63,
            alpha: 255,
        }),
        tile_render_spec(Tile::BurntFloor, current, boat_opacity, player_opacity).background == Ink::Black,
        tile_render_spec(Tile::StairsDown, current, boat_opacity, player_opacity).foreground == (Ink::Grey {
            level: 255,
            alpha: 255,
        }),
        tile_render_spec(Tile::Junk, current, boat_opacity, player_opacity).bold == Some(true),
        forall|t: Tile| t != Tile::BurntFloor ==> #[trigger] tile_render_spec(t, current, boat_opacity, player_opacity).background
            == Ink::MurkyGreen,
{
}

} // verus!
