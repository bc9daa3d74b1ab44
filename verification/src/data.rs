//! The things found in the world: junk to collect, map tiles, doors and the passengers who can
//! be taken to the ocean.
use vstd::prelude::*;

verus! {

/// A piece of junk the player can pick up.
#[derive(Clone, Copy, Debug, PartialEq, Eq, Hash, Structural)]
pub enum Junk {
    RotaryPhone,
    BrokenTypewriter,
    PolaroidCamera,
    VhsTape,
    VinylRecord,
    CassettePlayer,
}

/// The name of a piece of junk as shown in messages.
pub open spec fn junk_name(junk: Junk) -> Seq<char> {
    match junk {
        Junk::RotaryPhone => "rotary telephone"@,
        Junk::BrokenTypewriter => "broken typewriter"@,
        Junk::PolaroidCamera => "polaroid camera"@,
        Junk::VhsTape => "VHS tape"@,
        Junk::VinylRecord => "vinyl record"@,
        Junk::CassettePlayer => "cassette player"@,
    }
}

/// Every kind of junk, in declaration order.
pub open spec fn all_junk() -> Seq<Junk> {
    seq![
        Junk::RotaryPhone,
        Junk::BrokenTypewriter,
        Junk::PolaroidCamera,
        Junk::VhsTape,
        Junk::VinylRecord,
        Junk::CassettePlayer,
    ]
}

impl Junk {
    /// The name of this piece of junk.
    pub fn name(self) -> (s: String)
        ensures
            s@ == junk_name(self),
    {
        let s = match self {
            Junk::RotaryPhone => "rotary telephone",
            Junk::BrokenTypewriter => "broken typewriter",
            Junk::PolaroidCamera => "polaroid camera",
            Junk::VhsTape => "VHS tape",
            Junk::VinylRecord => "vinyl record",
            Junk::CassettePlayer => "cassette player",
        };
        String::from_str(s)
    }

    /// Every kind of junk.
    pub fn all() -> (v: Vec<Junk>)
        ensures
            v@ == all_junk(),
    {
        let v = vec![
            Junk::RotaryPhone,
            Junk::BrokenTypewriter,
            Junk::PolaroidCamera,
            Junk::VhsTape,
            Junk::VinylRecord,
            Junk::CassettePlayer,
        ];
        assert(v@ =~= all_junk());
        v
    }
}

/// What is drawn in a cell of the map.
#[derive(Clone, Copy, Debug, PartialEq, Eq, Hash, Structural)]
pub enum Tile {
    Player,
    BoatEdge,
    BoatFloor,
    Water1,
    Water2,
    Floor,
    BurntFloor,
    Wall,
    DoorClosed,
    DoorOpen,
    Rock,
    Board,
    BoatControls,
    Tree,
    StairsDown,
    StairsUp,
    /// A ghost that haunts the player at night.
    Phantom,
    UnimportantNpc,
    Grave,
    Npc(Npc),
    Junk,
    Shop,
    Button,
    ButtonPressed,
    Beast,
}

/// Whether a door is open or closed.
#[derive(Clone, Copy, Debug, PartialEq, Eq, Structural)]
pub enum DoorState {
    Open,
    Closed,
}

/// A character who may travel on the boat.
#[derive(Clone, Copy, Debug, PartialEq, Eq, Hash, Structural)]
pub enum Npc {
    Soldier,
    Physicist,
    Beast,
    /// The friendly ghost.
    Phantom,
    Surgeon,
    Thief,
    Surveyor,
}

/// Every passenger, in declaration order.
pub open spec fn all_npcs() -> Seq<Npc> {
    seq![
        Npc::Soldier,
        Npc::Physicist,
        Npc::Beast,
        Npc::Phantom,
        Npc::Surgeon,
        Npc::Thief,
        Npc::Surveyor,
    ]
}

pub open spec fn npc_name(npc: Npc) -> Seq<char> {
    match npc {
        Npc::Soldier => "Soldier"@,
        Npc::Physicist => "Physicist"@,
        Npc::Beast => "Beast"@,
        Npc::Phantom => "Ghost"@,
        Npc::Surgeon => "Surgeon"@,
        Npc::Thief => "Thief"@,
        Npc::Surveyor => "Surveyor"@,
    }
}

pub open spec fn npc_ability_name(npc: Npc) -> Seq<char> {
    match npc {
        Npc::Soldier => "Destroy"@,
        Npc::Physicist => "Blink"@,
        Npc::Beast => "Fear"@,
        Npc::Phantom => "Phase"@,
        Npc::Surgeon => "Heal"@,
        Npc::Thief => "Sneak"@,
        Npc::Surveyor => "Telescope"@,
    }
}

/// What a passenger says when asking to be taken to the ocean, after their name.
pub open spec fn npc_speech(npc: Npc) -> Seq<char> {
    match npc {
        Npc::Soldier => "Duty has called me to the ocean. Will you take me there? I can help you defeat your enemies or clear a path through the trees."@,
        Npc::Physicist => "My studies necessitate that I visit the ocean. Will you take me? If you take me on your boat I will let you borrow my experimental teleportation device."@,
        Npc::Beast => "One of those...things...bit me, but jokes on them because it didn't seem to work. Take me to the ocean? I can scare away other beasts that get in your way."@,
        Npc::Phantom => "Not all ghosts are scary. I just want to go to the ocean. Will you take me? I can briefly make you incorporeal."@,
        Npc::Surgeon => "My skills are needed ad the ocean. Take me there? I can heal you if you get injured."@,
        Npc::Thief => "I'm trying to escape to the ocean. Will you help me get there? With me you can sneak past your enemies."@,
        Npc::Surveyor => "I wish to go to the ocean to map the coastline. Can I travel on your boat? I'll let you borrow my telescope."@,
    }
}

/// The full text of a passenger's request: their name, a colon, a blank line, then their
/// speech.
pub open spec fn npc_text(npc: Npc) -> Seq<char> {
    npc_name(npc) + ":\n\n"@ + npc_speech(npc)
}

impl Npc {
    /// Every passenger.
    pub fn all() -> (v: Vec<Npc>)
        ensures
            v@ == all_npcs(),
    {
        let v = vec![
            Npc::Soldier,
            Npc::Physicist,
            Npc::Beast,
            Npc::Phantom,
            Npc::Surgeon,
            Npc::Thief,
            Npc::Surveyor,
        ];
        assert(v@ =~= all_npcs());
        v
    }

    pub fn name(self) -> (s: String)
        ensures
            s@ == npc_name(self),
    {
        let s = match self {
            Npc::Soldier => "Soldier",
            Npc::Physicist => "Physicist",
            Npc::Beast => "Beast",
            Npc::Phantom => "Ghost",
            Npc::Surgeon => "Surgeon",
            Npc::Thief => "Thief",
            Npc::Surveyor => "Surveyor",
        };
        String::from_str(s)
    }

    /// The name of the ability the passenger lends the player.
    pub fn ability_name(self) -> (s: String)
        ensures
            s@ == npc_ability_name(self),
    {
        let s = match self {
            Npc::Soldier => "Destroy",
            Npc::Physicist => "Blink",
            Npc::Beast => "Fear",
            Npc::Phantom => "Phase",
            Npc::Surgeon => "Heal",
            Npc::Thief => "Sneak",
            Npc::Surveyor => "Telescope",
        };
        String::from_str(s)
    }

    /// How many times the ability can be used: twice for every passenger.
    pub fn ability_uses(self) -> (n: u32)
        ensures
            n == 2,
    {
        match self {
            Npc::Soldier => 2,
            Npc::Physicist => 2,
            Npc::Beast => 2,
            Npc::Phantom => 2,
            Npc::Surgeon => 2,
            Npc::Thief => 2,
            Npc::Surveyor => 2,
        }
    }

    /// What the passenger says when asking to be taken to the ocean.
    pub fn text(self) -> (s: String)
        ensures
            s@ == npc_text(self),
    {
        let name = self.name();
        let speech = match self {
            Npc::Soldier => "Duty has called me to the ocean. Will you take me there? I can help you defeat your enemies or clear a path through the trees.",
            Npc::Physicist => "My studies necessitate that I visit the ocean. Will you take me? If you take me on your boat I will let you borrow my experimental teleportation device.",
            Npc::Beast => "One of those...things...bit me, but jokes on them because it didn't seem to work. Take me to the ocean? I can scare away other beasts that get in your way.",
            Npc::Phantom => "Not all ghosts are scary. I just want to go to the ocean. Will you take me? I can briefly make you incorporeal.",
            Npc::Surgeon => "My skills are needed ad the ocean. Take me there? I can heal you if you get injured.",
            Npc::Thief => "I'm trying to escape to the ocean. Will you help me get there? With me you can sneak past your enemies.",
            Npc::Surveyor => "I wish to go to the ocean to map the coastline. Can I travel on your boat? I'll let you borrow my telescope.",
        };
        let s = name.concat(":\n\n");
        s.concat(speech)
    }
}

} // verus!
