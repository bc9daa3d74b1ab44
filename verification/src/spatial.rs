//! The layers of a cell of the world, and what the player remembers seeing in each.
use crate::data::Tile;
use vstd::prelude::*;

verus! {

/// One of the layers that a cell of the world is made of.
#[derive(Clone, Copy, Debug, PartialEq, Eq, Hash, Structural)]
pub enum Layer {
    Floor,
    Feature,
    Character,
    Item,
    Boat,
    Water,
}

/// One value for each layer of a cell.
#[derive(Clone, Copy, Debug, PartialEq, Eq, Default)]
pub struct LayerTable<T> {
    pub floor: T,
    pub feature: T,
    pub character: T,
    pub item: T,
    pub boat: T,
    pub water: T,
}

/// What the player last saw of a cell: the tile on each layer.
#[derive(Clone, Copy, Debug, Default)]
pub struct VisibleCellData {
    pub tiles: LayerTable<Option<Tile>>,
}

} // verus!
