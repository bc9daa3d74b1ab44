# Boat Journey

The rules and the level generation of a roguelike in which the player steers a boat down a
river at night, picking up passengers and dodging ghosts on the way to the ocean. The library
is written in Verus: each function states what it does in its contract, and Verus proves it.

## Layout

- `src/` — the verified library.
  - `geometry`, `grid`, `connectivity`: coordinates, directions, grids of cells, and paths
    through them.
  - `random`: the random draws of level generation, made through `rand_isaac`.
  - `river`, `town`, `water`, `world2`, `world3`, `populate`, `terrain`: the stages that grow
    the overworld, from a river across the land to towns, piers, houses and graves.
  - `rooms_and_corridors`, `dungeon`: the dungeons under the graves, and the trips down into
    them and back.
  - `hull`, `doors`, `windows`, `air`: ship hulls, their rooms and doors, their windows, and
    the air that vents from them.
  - `boat`: the outline, deck and seats of the boat.
  - `game`, `witness`, `meter`, `data`, `player`, `action`, `fade`, `explosion`, `spatial`,
    `text`: the game state and the decisions taken on each turn.
  - `render`, `message_log`: how tiles are drawn, and the lines of the recent messages.
- `tests/` — tests on concrete values.
- `app/` — a command-line program that generates a world and prints it; it holds the parts
  that use floating point (the shape of the land and the blobs of the city and the swamp).
