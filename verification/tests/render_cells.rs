use boat_journey::data::{Npc, Tile};
use boat_journey::render::{tile_to_render_cell, Ink, RenderCell};

#[test]
fn the_player_is_bold_white_faded_over_green() {
    let c = tile_to_render_cell(Tile::Player, true, 10, 77);
    assert_eq!(
        c,
        RenderCell {
            character: '@',
            bold: Some(true),
            underline: None,
            foreground: Ink::WhiteOverGreen { alpha: 77 },
            background: Ink::MurkyGreen,
        }
    );
    assert_eq!(tile_to_render_cell(Tile::BoatEdge, true, 10, 77).foreground, Ink::WhiteOverGreen { alpha: 10 });
}

#[test]
fn water_shows_waves_only_when_seen_now() {
    assert_eq!(tile_to_render_cell(Tile::Water1, true, 0, 0).character, '~');
    assert_eq!(tile_to_render_cell(Tile::Water1, false, 0, 0).character, ' ');
    assert_eq!(tile_to_render_cell(Tile::Water2, true, 0, 0).character, ' ');
    assert_eq!(tile_to_render_cell(Tile::Floor, true, 0, 0).foreground, Ink::Grey { level: 187, alpha: 255 });
}

#[test]
fn special_tiles() {
    assert_eq!(tile_to_render_cell(Tile::Wall, true, 0, 0).character, '\u{2588}');
    let burnt = tile_to_render_cell(Tile::BurntFloor, true, 0, 0);
    assert_eq!(burnt.background, Ink::Black);
    assert_eq!(burnt.foreground, Ink::Grey { level: 63, alpha: 255 });
    let npc = tile_to_render_cell(Tile::Npc(Npc::Soldier), true, 0, 200);
    assert_eq!(npc.foreground, Ink::Grey { level: 255, alpha: 200 });
    assert_eq!(npc.underline, Some(false));
    assert_eq!(tile_to_render_cell(Tile::Shop, true, 0, 0).character, '$');
}
