//! The player character: weapons, credit and upgrades.
use vstd::prelude::*;

verus! {

/// A ranged weapon.
#[derive(Clone, Copy, Debug, PartialEq, Eq, Structural)]
pub enum RangedWeapon {
    Shotgun,
    Railgun,
    Rifle,
    GausCannon,
    Oxidiser,
    LifeStealer,
}

/// A melee weapon.
#[derive(Clone, Copy, Debug, PartialEq, Eq, Structural)]
pub enum MeleeWeapon {
    Chainsaw,
}

/// The player.
#[derive(Clone, Debug)]
pub struct Player {
    pub melee_weapon: Weapon,
    pub credit: u32,
    pub ranged_weapons: Vec<Option<Weapon>>,
    pub upgrade_table: UpgradeTable,
    pub traits: PlayerTraits,
}

/// Traits granted by upgrades.
#[derive(Clone, Copy, Debug, PartialEq, Eq, Structural)]
pub struct PlayerTraits {
    pub reduce_hull_pen: bool,
    pub double_damage: bool,
    pub half_vacuum_pull: bool,
}

impl Default for PlayerTraits {
    fn default() -> (t: PlayerTraits)
        ensures
            !t.reduce_hull_pen,
            !t.double_damage,
            !t.half_vacuum_pull,
    {
        PlayerTraits { reduce_hull_pen: false, double_damage: false, half_vacuum_pull: false }
    }
}

/// The kind of a weapon.
#[derive(Clone, Copy, Debug, PartialEq, Eq, Structural)]
pub enum WeaponName {
    BareHands,
    RangedWeapon(RangedWeapon),
    MeleeWeapon(MeleeWeapon),
}

/// A special effect of a weapon.
#[derive(Clone, Copy, Debug, PartialEq, Eq, Structural)]
pub enum WeaponAbility {
    KnockBack,
    LifeSteal,
    Oxidise,
}

/// The ammunition of a weapon.
#[derive(Clone, Copy, Debug, PartialEq, Eq, Structural)]
pub struct Ammo {
    pub current: u32,
    pub max: u32,
}

impl Ammo {
    /// A full magazine of `max` rounds.
    pub fn new_full(max: u32) -> (a: Ammo)
        ensures
            a.current == max,
            a.max == max,
    {
        Ammo { current: max, max }
    }
}

/// A weapon: its kind, ammunition, armour penetration, damage, chance in percent of piercing
/// the hull, and special effects.
#[derive(Clone, Debug)]
pub struct Weapon {
    pub name: WeaponName,
    pub ammo: Option<Ammo>,
    pub pen: u32,
    pub dmg: u32,
    pub hull_pen_percent: u32,
    pub abilities: Vec<WeaponAbility>,
}

/// The statistics of a weapon, leaving out its abilities.
pub open spec fn weapon_stats(
    w: Weapon,
    name: WeaponName,
    ammo: Option<Ammo>,
    pen: u32,
    dmg: u32,
    hull_pen_percent: u32,
) -> bool {
    &&& w.name == name
    &&& w.ammo == ammo
    &&& w.pen == pen
    &&& w.dmg == dmg
    &&& w.hull_pen_percent == hull_pen_percent
}

pub open spec fn full(max: u32) -> Option<Ammo> {
    Some(Ammo { current: max, max })
}

impl Weapon {
    pub fn new_bare_hands() -> (w: Weapon)
        ensures
            weapon_stats(w, WeaponName::BareHands, None, 2, 2, 0),
            w.abilities@ == seq![WeaponAbility::KnockBack],
    {
        let abilities = vec![WeaponAbility::KnockBack];
        assert(abilities@ =~= seq![WeaponAbility::KnockBack]);
        Weapon { name: WeaponName::BareHands, ammo: None, pen: 2, dmg: 2, hull_pen_percent: 0, abilities }
    }

    pub fn new_chainsaw() -> (w: Weapon)
        ensures
            weapon_stats(w, WeaponName::MeleeWeapon(MeleeWeapon::Chainsaw), full(6), 10, 5, 0),
            w.abilities@ == Seq::<WeaponAbility>::empty(),
    {
        Weapon {
            name: WeaponName::MeleeWeapon(MeleeWeapon::Chainsaw),
            ammo: Some(Ammo::new_full(6)),
            pen: 10,
            dmg: 5,
            hull_pen_percent: 0,
            abilities: Vec::new(),
        }
    }

    pub fn new_shotgun() -> (w: Weapon)
        ensures
            weapon_stats(w, WeaponName::RangedWeapon(RangedWeapon::Shotgun), full(8), 3, 5, 30),
            w.abilities@ == seq![WeaponAbility::KnockBack],
    {
        let abilities = vec![WeaponAbility::KnockBack];
        assert(abilities@ =~= seq![WeaponAbility::KnockBack]);
        Weapon {
            name: WeaponName::RangedWeapon(RangedWeapon::Shotgun),
            ammo: Some(Ammo::new_full(8)),
            pen: 3,
            dmg: 5,
            hull_pen_percent: 30,
            abilities,
        }
    }

    pub fn new_railgun() -> (w: Weapon)
        ensures
            weapon_stats(w, WeaponName::RangedWeapon(RangedWeapon::Railgun), full(8), 100, 5, 50),
            w.abilities@ == Seq::<WeaponAbility>::empty(),
    {
        Weapon {
            name: WeaponName::RangedWeapon(RangedWeapon::Railgun),
            ammo: Some(Ammo::new_full(8)),
            pen: 100,
            dmg: 5,
            hull_pen_percent: 50,
            abilities: Vec::new(),
        }
    }

    pub fn new_rifle() -> (w: Weapon)
        ensures
            weapon_stats(w, WeaponName::RangedWeapon(RangedWeapon::Rifle), full(8), 8, 2, 20),
            w.abilities@ == Seq::<WeaponAbility>::empty(),
    {
        Weapon {
            name: WeaponName::RangedWeapon(RangedWeapon::Rifle),
            ammo: Some(Ammo::new_full(8)),
            pen: 8,
            dmg: 2,
            hull_pen_percent: 20,
            abilities: Vec::new(),
        }
    }

    pub fn new_gaus_cannon() -> (w: Weapon)
        ensures
            weapon_stats(w, WeaponName::RangedWeapon(RangedWeapon::GausCannon), full(1), 20, 10, 0),
            w.abilities@ == Seq::<WeaponAbility>::empty(),
    {
        Weapon {
            name: WeaponName::RangedWeapon(RangedWeapon::GausCannon),
            ammo: Some(Ammo::new_full(1)),
            pen: 20,
            dmg: 10,
            hull_pen_percent: 0,
            abilities: Vec::new(),
        }
    }

    pub fn new_oxidiser() -> (w: Weapon)
        ensures
            weapon_stats(w, WeaponName::RangedWeapon(RangedWeapon::Oxidiser), full(4), 3, 1, 0),
            w.abilities@ == seq![WeaponAbility::Oxidise],
    {
        let abilities = vec![WeaponAbility::Oxidise];
        assert(abilities@ =~= seq![WeaponAbility::Oxidise]);
        Weapon {
            name: WeaponName::RangedWeapon(RangedWeapon::Oxidiser),
            ammo: Some(Ammo::new_full(4)),
            pen: 3,
            dmg: 1,
            hull_pen_percent: 0,
            abilities,
        }
    }

    pub fn new_life_stealer() -> (w: Weapon)
        ensures
            weapon_stats(w, WeaponName::RangedWeapon(RangedWeapon::LifeStealer), full(4), 3, 1, 0),
            w.abilities@ == seq![WeaponAbility::LifeSteal],
    {
        let abilities = vec![WeaponAbility::LifeSteal];
        assert(abilities@ =~= seq![WeaponAbility::LifeSteal]);
        Weapon {
            name: WeaponName::RangedWeapon(RangedWeapon::LifeStealer),
            ammo: Some(Ammo::new_full(4)),
            pen: 3,
            dmg: 1,
            hull_pen_percent: 0,
            abilities,
        }
    }

    /// True iff this is a ranged weapon.
    pub fn is_ranged(&self) -> (b: bool)
        ensures
            b == (self.name is RangedWeapon),
    {
        match self.name {
            WeaponName::RangedWeapon(_) => true,
            _ => false,
        }
    }

    /// True iff this is a melee weapon (bare hands are not one).
    pub fn is_melee(&self) -> (b: bool)
        ensures
            b == (self.name is MeleeWeapon),
    {
        match self.name {
            WeaponName::MeleeWeapon(_) => true,
            _ => false,
        }
    }
}

/// One of the player's ranged weapon slots.
#[derive(Clone, Copy, Debug, PartialEq, Eq, Structural)]
pub enum RangedWeaponSlot {
    Slot1,
    Slot2,
    Slot3,
}

impl RangedWeaponSlot {
    /// The position of the slot among the player's ranged weapons.
    pub fn index(self) -> (i: usize)
        ensures
            i == match self {
                RangedWeaponSlot::Slot1 => 0usize,
                RangedWeaponSlot::Slot2 => 1usize,
                RangedWeaponSlot::Slot3 => 2usize,
            },
    {
        match self {
            RangedWeaponSlot::Slot1 => 0,
            RangedWeaponSlot::Slot2 => 1,
            RangedWeaponSlot::Slot3 => 2,
        }
    }
}

/// The level reached in each line of upgrades, if any.
///
/// Toughness: an extra weapon slot, then double hit points.
/// Accuracy: half the chance of piercing the hull, then double damage.
/// Endurance: half the pull of a vacuum, then double oxygen.
#[derive(Clone, Copy, Debug, PartialEq, Eq, Structural)]
pub struct UpgradeTable {
    pub toughness: Option<UpgradeLevel>,
    pub accuracy: Option<UpgradeLevel>,
    pub endurance: Option<UpgradeLevel>,
}

#[derive(Clone, Copy, Debug, PartialEq, Eq, Structural)]
pub enum UpgradeLevel {
    Level1,
    Level2,
}

pub open spec fn upgrade_cost(level: UpgradeLevel) -> u32 {
    match level {
        UpgradeLevel::Level1 => 5,
        UpgradeLevel::Level2 => 10,
    }
}

impl UpgradeLevel {
    /// The credit an upgrade of this level costs.
    pub fn cost(self) -> (c: u32)
        ensures
            c == upgrade_cost(self),
    {
        match self {
            UpgradeLevel::Level1 => 5,
            UpgradeLevel::Level2 => 10,
        }
    }
}

#[derive(Clone, Copy, Debug, PartialEq, Eq, Structural)]
pub enum UpgradeType {
    Toughness,
    Accuracy,
    Endurance,
}

#[derive(Clone, Copy, Debug, PartialEq, Eq, Structural)]
pub struct Upgrade {
    pub typ: UpgradeType,
    pub level: UpgradeLevel,
}

/// The level reached in one line of upgrades.
pub open spec fn table_level(table: UpgradeTable, typ: UpgradeType) -> Option<UpgradeLevel> {
    match typ {
        UpgradeType::Toughness => table.toughness,
        UpgradeType::Accuracy => table.accuracy,
        UpgradeType::Endurance => table.endurance,
    }
}

/// The upgrade offered next in one line: level 1 when none was bought, level 2 after level 1,
/// and nothing after level 2.
pub open spec fn next_upgrade(table: UpgradeTable, typ: UpgradeType) -> Seq<Upgrade> {
    match table_level(table, typ) {
        None => seq![Upgrade { typ, level: UpgradeLevel::Level1 }],
        Some(UpgradeLevel::Level1) => seq![Upgrade { typ, level: UpgradeLevel::Level2 }],
        Some(UpgradeLevel::Level2) => Seq::empty(),
    }
}

/// The upgrades offered for a table: toughness, then accuracy, then endurance.
pub open spec fn available_upgrades_spec(table: UpgradeTable) -> Seq<Upgrade> {
    next_upgrade(table, UpgradeType::Toughness) + next_upgrade(table, UpgradeType::Accuracy)
        + next_upgrade(table, UpgradeType::Endurance)
}

fn push_next_upgrade(out: &mut Vec<Upgrade>, level: Option<UpgradeLevel>, typ: UpgradeType)
    ensures
        final(out)@ == old(out)@ + match level {
            None => seq![Upgrade { typ, level: UpgradeLevel::Level1 }],
            Some(UpgradeLevel::Level1) => seq![Upgrade { typ, level: UpgradeLevel::Level2 }],
            Some(UpgradeLevel::Level2) => Seq::<Upgrade>::empty(),
        },
{
    match level {
        None => out.push(Upgrade { typ, level: UpgradeLevel::Level1 }),
        Some(UpgradeLevel::Level1) => out.push(Upgrade { typ, level: UpgradeLevel::Level2 }),
        Some(UpgradeLevel::Level2) => (),
    }
    assert(final(out)@ =~= old(out)@ + match level {
        None => seq![Upgrade { typ, level: UpgradeLevel::Level1 }],
        Some(UpgradeLevel::Level1) => seq![Upgrade { typ, level: UpgradeLevel::Level2 }],
        Some(UpgradeLevel::Level2) => Seq::<Upgrade>::empty(),
    });
}

impl Player {
    /// A player with bare hands, no credit, two empty ranged weapon slots, no upgrades and no
    /// traits.
    pub fn new() -> (p: Player)
        ensures
            weapon_stats(p.melee_weapon, WeaponName::BareHands, None, 2, 2, 0),
            p.melee_weapon.abilities@ == seq![WeaponAbility::KnockBack],
            p.credit == 0,
            p.ranged_weapons@ == seq![None::<Weapon>, None::<Weapon>],
            p.upgrade_table == (UpgradeTable { toughness: None, accuracy: None, endurance: None }),
            p.traits == (PlayerTraits {
                reduce_hull_pen: false,
                double_damage: false,
                half_vacuum_pull: false,
            }),
    {
        let ranged_weapons = vec![None, None];
        assert(ranged_weapons@ =~= seq![None::<Weapon>, None::<Weapon>]);
        Player {
            melee_weapon: Weapon::new_bare_hands(),
            credit: 0,
            ranged_weapons,
            upgrade_table: UpgradeTable { toughness: None, accuracy: None, endurance: None },
            traits: PlayerTraits::default(),
        }
    }

    /// The damage of the melee weapon.
    pub fn melee_dmg(&self) -> (d: u32)
        ensures
            d == self.melee_weapon.dmg,
    {
        self.melee_weapon.dmg
    }

    /// The armour penetration of the melee weapon.
    pub fn melee_pen(&self) -> (p: u32)
        ensures
            p == self.melee_weapon.pen,
    {
        self.melee_weapon.pen
    }

    /// The upgrades the player can buy next.
    pub fn available_upgrades(&self) -> (v: Vec<Upgrade>)
        ensures
            v@ == available_upgrades_spec(self.upgrade_table),
    {
        let mut out: Vec<Upgrade> = Vec::new();
        push_next_upgrade(&mut out, self.upgrade_table.toughness, UpgradeType::Toughness);
        push_next_upgrade(&mut out, self.upgrade_table.accuracy, UpgradeType::Accuracy);
        push_next_upgrade(&mut out, self.upgrade_table.endurance, UpgradeType::Endurance);
        assert(out@ =~= available_upgrades_spec(self.upgrade_table));
        out
    }
}

} // verus!
