//! Game logic and level generation for a turn-based boat journey to the ocean.
pub mod geometry;
pub mod grid;
pub mod random;
pub mod rooms_and_corridors;
pub mod meter;
pub mod data;
pub mod player;
pub mod action;
pub mod fade;
pub mod connectivity;
pub mod river;
pub mod town;
pub mod water;
pub mod dungeon;
pub mod text;
pub mod game;
pub mod witness;
pub mod terrain;
pub mod explosion;
pub mod spatial;
pub mod hull;
pub mod world2;
pub mod world3;
pub mod populate;
pub mod boat;
pub mod doors;
pub mod windows;
pub mod air;
pub mod render;
pub mod message_log;
