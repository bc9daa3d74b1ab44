//! The plain data that world generation passes between its stages.
use crate::geometry::{Coord, Size};
use crate::grid::Grid;
use crate::water::{WaterType, WorldCell2};
use vstd::prelude::*;

verus! {

/// What to generate: the size of the first world grid and how many graves to dig.
#[derive(Clone, Copy, Debug, PartialEq, Eq, Structural)]
pub struct Spec {
    pub size: Size,
    pub num_graves: u32,
}

/// A blob-shaped area: the cells of its border and the cells it encloses.
#[derive(Clone, Debug)]
pub struct Blob {
    pub border: Vec<Coord>,
    pub inside: Vec<Coord>,
}

/// The second world grid with the places that the third stage builds on.
pub struct World2 {
    pub grid: Grid<WorldCell2>,
    pub spawn: Coord,
    pub ocean_x_ofset: u32,
    pub lake_centre: Coord,
    pub swamp_centre: Coord,
    pub city_centre: Coord,
    pub city_blob: Blob,
    pub gate: Vec<Coord>,
}

/// A cell of the third and final world grid.
#[derive(Clone, Copy, Debug, PartialEq, Eq, Structural)]
pub enum WorldCell3 {
    Ground,
    TownGround,
    Floor,
    Water(WaterType),
    Wall,
    Gate,
    Door,
    StairsDown,
    StairsUp,
    Grave,
}

/// Accepts every river: no shape of river is rejected at present.
pub fn validate_river(river: &Vec<Coord>) -> (b: bool)
    ensures
        b,
{
    let _ = river;
    true
}

} // verus!
