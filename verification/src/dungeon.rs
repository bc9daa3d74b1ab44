//! Dungeons below the city: a level of rooms and corridors, recast as dungeon cells.
use crate::geometry::{Coord, Size};
use crate::grid::Grid;
use crate::rooms_and_corridors::{generated_from_rooms, Room, RoomsAndCorridorsCell, RoomsAndCorridorsLevel};
use rand_isaac::Isaac64Rng;
use vstd::prelude::*;

verus! {

/// A cell of a dungeon.
#[derive(Clone, Copy, Debug, PartialEq, Eq, Structural)]
pub enum DungeonCell {
    Door,
    Wall,
    Floor,
}

/// A generated dungeon level.
pub struct Dungeon {
    pub spawn: Coord,
    pub grid: Grid<DungeonCell>,
    pub destination: Coord,
    pub other_room_centres: Vec<Coord>,
}

/// The dungeon cell standing for a cell of a rooms-and-corridors level.
pub open spec fn dungeon_cell_of(c: RoomsAndCorridorsCell) -> DungeonCell {
    match c {
        RoomsAndCorridorsCell::Door => DungeonCell::Door,
        RoomsAndCorridorsCell::Wall => DungeonCell::Wall,
        RoomsAndCorridorsCell::Floor => DungeonCell::Floor,
    }
}

/// `d` is the level recast as a dungeon: the same spawn, destination and other room centres,
/// and each cell replaced by its dungeon cell.
pub open spec fn dungeon_of_level(d: Dungeon, level: RoomsAndCorridorsLevel) -> bool {
    &&& d.spawn == level.player_spawn
    &&& d.destination == level.destination
    &&& d.other_room_centres@ == level.other_room_centres@
    &&& d.grid.wf()
    &&& d.grid.spec_size() == level.map.spec_size()
    &&& forall|c: Coord| #[trigger] d.grid.contains(c) ==> d.grid.at(c) == dungeon_cell_of(level.map.at(c))
}

fn dungeon_cell(cell: &RoomsAndCorridorsCell) -> (r: DungeonCell)
    ensures
        r == dungeon_cell_of(*cell),
{
    match cell {
        RoomsAndCorridorsCell::Door => DungeonCell::Door,
        RoomsAndCorridorsCell::Wall => DungeonCell::Wall,
        RoomsAndCorridorsCell::Floor => DungeonCell::Floor,
    }
}

/// Generates a level of rooms and corridors of the given size and recasts it as a dungeon.
pub fn generate_dungeon(size: Size, rng: &mut Isaac64Rng) -> (d: Dungeon)
    requires
        11 <= size.width <= 46340,
        9 <= size.height <= 46340,
    ensures
        d.grid.spec_size() == size,
        exists|level: RoomsAndCorridorsLevel, rooms: Seq<Room>|
            #[trigger] generated_from_rooms(level, rooms, size) && dungeon_of_level(d, level),
{
    let level = RoomsAndCorridorsLevel::generate(size, rng);
    let ghost lv = level;
    let grid = level.map.map_ref(dungeon_cell);
    let ghost rooms = choose|rooms: Seq<Room>| #[trigger] generated_from_rooms(lv, rooms, size);
    let d = Dungeon {
        grid,
        spawn: level.player_spawn,
        destination: level.destination,
        other_room_centres: level.other_room_centres,
    };
    proof {
        assert(dungeon_of_level(d, lv));
        assert(generated_from_rooms(lv, rooms, size));
    }
    d
}


/// A trip below: which dungeon, where the player stood when they went down, the world above as
/// it was left, and where the dungeon's stairs up are.
pub struct Trip<W> {
    pub index: usize,
    pub return_coord: Coord,
    pub world_above: W,
    pub dungeon_spawn: Coord,
}

/// The dungeons of a journey: each level, with the cell where the player arrives in it, kept
/// while the player is not in it; and the trip under way, if any.
pub struct Dungeons<W> {
    pub levels: Vec<Option<(W, Coord)>>,
    pub trip: Option<Trip<W>>,
}

/// Going down into the level `index` of `levels` from the world `world`, where the player
/// stands at `player`: the level is taken out, the trip remembers the way back, and the
/// level's world and arrival cell are handed over.
pub open spec fn trip_down<W>(levels: Seq<Option<(W, Coord)>>, index: int, world: W, player: Coord) -> (
    Seq<Option<(W, Coord)>>,
    Trip<W>,
    (W, Coord),
) {
    let level = levels[index]->0;
    (
        levels.update(index, None),
        Trip { index: index as usize, return_coord: player, world_above: world, dungeon_spawn: level.1 },
        level,
    )
}

/// Coming back up from the trip `trip`, leaving the dungeon's world as `dungeon_world`: the
/// level is put back with its arrival cell, and the world above and the cell where the player
/// went down are handed back.
pub open spec fn trip_up<W>(levels: Seq<Option<(W, Coord)>>, trip: Trip<W>, dungeon_world: W) -> (
    Seq<Option<(W, Coord)>>,
    (W, Coord),
) {
    (levels.update(trip.index as int, Some((dungeon_world, trip.dungeon_spawn))), (trip.world_above, trip.return_coord))
}

impl<W> Dungeons<W> {
    /// The player is below, in a dungeon.
    pub fn is_in_dungeon(&self) -> (b: bool)
        ensures
            b == self.trip is Some,
    {
        self.trip.is_some()
    }

    /// Goes down into the level `index`, leaving the world `world` with the player at `player`;
    /// returns the level's world and the cell where the player arrives.
    pub fn enter(&mut self, index: usize, world: W, player: Coord) -> (r: (W, Coord))
        requires
            old(self).trip is None,
            index < old(self).levels@.len(),
            old(self).levels@[index as int] is Some,
        ensures
            final(self).trip is Some,
            (final(self).levels@, final(self).trip->0, r) == trip_down(old(self).levels@, index as int, world, player),
    {
        let level = self.levels.remove(index);
        self.levels.insert(index, None);
        proof {
            assert(self.levels@ =~= old(self).levels@.update(index as int, None));
        }
        match level {
            Some((dungeon_world, spawn)) => {
                self.trip = Some(Trip { index, return_coord: player, world_above: world, dungeon_spawn: spawn });
                (dungeon_world, spawn)
            },
            None => {
                proof {
                    assert(false);
                }
                (world, player)
            },
        }
    }

    /// Comes back up, leaving the dungeon's world as `dungeon_world`; returns the world above
    /// and the cell where the player went down.
    pub fn exit(&mut self, dungeon_world: W) -> (r: (W, Coord))
        requires
            old(self).trip is Some,
            (old(self).trip->0).index < old(self).levels@.len(),
        ensures
            final(self).trip is None,
            (final(self).levels@, r) == trip_up(old(self).levels@, old(self).trip->0, dungeon_world),
    {
        let trip = self.trip.take();
        match trip {
            Some(t) => {
                let Trip { index, return_coord, world_above, dungeon_spawn } = t;
                self.levels.remove(index);
                self.levels.insert(index, Some((dungeon_world, dungeon_spawn)));
                proof {
                    assert(self.levels@ =~= old(self).levels@.update(index as int, Some((dungeon_world, dungeon_spawn))));
                }
                (world_above, return_coord)
            },
            None => {
                proof {
                    assert(false);
                }
                (dungeon_world, Coord { x: 0, y: 0 })
            },
        }
    }
}

/// Going down into a dungeon and straight back up gives back the world above and the cell
/// where the player went down, and puts the level back as the player left it, arriving again
/// where they first arrived.
pub proof fn law_down_and_up<W>(levels: Seq<Option<(W, Coord)>>, index: int, world: W, player: Coord)
    requires
        0 <= index < levels.len(),
        index <= usize::MAX,
        levels[index] is Some,
    ensures
        ({
            let (l1, trip, arrival) = trip_down(levels, index, world, player);
            trip_up(l1, trip, arrival.0) == (levels, (world, player))
        }),
{
    let (l1, trip, arrival) = trip_down(levels, index, world, player);
    assert(levels.update(index, None).update(index, Some((arrival.0, arrival.1))) =~= levels);
}

} // verus!
