//! Buying upgrades for the player.
use crate::player::{
    available_upgrades_spec, table_level, upgrade_cost, Player, PlayerTraits, Upgrade,
    UpgradeLevel, UpgradeTable, UpgradeType, Weapon,
};
use vstd::prelude::*;

verus! {

/// Why an action could not be taken.
#[derive(Clone, Copy, Debug, PartialEq, Eq, Structural)]
pub enum Error {
    WalkIntoSolidCell,
    CannotAffordUpgrade,
}

/// The hit points of a character.
#[derive(Clone, Copy, Debug, PartialEq, Eq, Structural)]
pub struct HitPoints {
    pub current: u32,
    pub max: u32,
}

/// The oxygen of a character.
#[derive(Clone, Copy, Debug, PartialEq, Eq, Structural)]
pub struct Oxygen {
    pub current: u32,
    pub max: u32,
}

/// The upgrade table after buying `upgrade`: its line is set to its level.
pub open spec fn table_after(table: UpgradeTable, upgrade: Upgrade) -> UpgradeTable {
    match upgrade.typ {
        UpgradeType::Toughness => UpgradeTable { toughness: Some(upgrade.level), ..table },
        UpgradeType::Accuracy => UpgradeTable { accuracy: Some(upgrade.level), ..table },
        UpgradeType::Endurance => UpgradeTable { endurance: Some(upgrade.level), ..table },
    }
}

/// The traits after buying `upgrade`.
pub open spec fn traits_after(traits: PlayerTraits, upgrade: Upgrade) -> PlayerTraits {
    match (upgrade.typ, upgrade.level) {
        (UpgradeType::Accuracy, UpgradeLevel::Level1) => PlayerTraits { reduce_hull_pen: true, ..traits },
        (UpgradeType::Accuracy, UpgradeLevel::Level2) => PlayerTraits { double_damage: true, ..traits },
        (UpgradeType::Endurance, UpgradeLevel::Level1) => PlayerTraits {
            half_vacuum_pull: true,
            ..traits
        },
        _ => traits,
    }
}

/// Buys `upgrade` for the player if they can afford it: the cost is taken from their credit,
/// the upgrade table records the new level, and the upgrade takes effect (an extra ranged weapon
/// slot, double hit points, half hull piercing, double damage, half vacuum pull or double
/// oxygen). Doubling hit points or oxygen must not overflow.
pub fn apply_upgrade(
    player: &mut Player,
    hit_points: &mut HitPoints,
    oxygen: &mut Oxygen,
    upgrade: Upgrade,
) -> (r: Result<(), Error>)
    requires
        upgrade == (Upgrade { typ: UpgradeType::Toughness, level: UpgradeLevel::Level2 }) ==> 2
            * old(hit_points).max <= u32::MAX && 2 * old(hit_points).current <= u32::MAX,
        upgrade == (Upgrade { typ: UpgradeType::Endurance, level: UpgradeLevel::Level2 }) ==> 2
            * old(oxygen).max <= u32::MAX && 2 * old(oxygen).current <= u32::MAX,
    ensures
        r is Err <==> old(player).credit < upgrade_cost(upgrade.level),
        r is Err ==> r == Err::<(), Error>(Error::CannotAffordUpgrade) && *final(player) == *old(
            player,
        ) && *final(hit_points) == *old(hit_points) && *final(oxygen) == *old(oxygen),
        r is Ok ==> {
            &&& final(player).credit == old(player).credit - upgrade_cost(upgrade.level)
            &&& final(player).upgrade_table == table_after(old(player).upgrade_table, upgrade)
            &&& final(player).traits == traits_after(old(player).traits, upgrade)
            &&& final(player).traits.reduce_hull_pen == (old(player).traits.reduce_hull_pen || upgrade == (Upgrade {
                typ: UpgradeType::Accuracy,
                level: UpgradeLevel::Level1,
            }))
            &&& final(player).traits.double_damage == (old(player).traits.double_damage || upgrade == (Upgrade {
                typ: UpgradeType::Accuracy,
                level: UpgradeLevel::Level2,
            }))
            &&& final(player).traits.half_vacuum_pull == (old(player).traits.half_vacuum_pull || upgrade == (Upgrade {
                typ: UpgradeType::Endurance,
                level: UpgradeLevel::Level1,
            }))
            &&& final(player).melee_weapon == old(player).melee_weapon
            &&& final(player).ranged_weapons@ == if upgrade == (Upgrade {
                typ: UpgradeType::Toughness,
                level: UpgradeLevel::Level1,
            }) {
                old(player).ranged_weapons@.push(None::<Weapon>)
            } else {
                old(player).ranged_weapons@
            }
            &&& *final(hit_points) == if upgrade == (Upgrade {
                typ: UpgradeType::Toughness,
                level: UpgradeLevel::Level2,
            }) {
                HitPoints {
                    current: (2 * old(hit_points).current) as u32,
                    max: (2 * old(hit_points).max) as u32,
                }
            } else {
                *old(hit_points)
            }
            &&& *final(oxygen) == if upgrade == (Upgrade {
                typ: UpgradeType::Endurance,
                level: UpgradeLevel::Level2,
            }) {
                Oxygen {
                    current: (2 * old(oxygen).current) as u32,
                    max: (2 * old(oxygen).max) as u32,
                }
            } else {
                *old(oxygen)
            }
        },
{
    let cost = upgrade.level.cost();
    if player.credit < cost {
        return Err(Error::CannotAffordUpgrade);
    }
    player.credit = player.credit - cost;
    match upgrade.typ {
        UpgradeType::Toughness => player.upgrade_table.toughness = Some(upgrade.level),
        UpgradeType::Accuracy => player.upgrade_table.accuracy = Some(upgrade.level),
        UpgradeType::Endurance => player.upgrade_table.endurance = Some(upgrade.level),
    }
    match (upgrade.typ, upgrade.level) {
        (UpgradeType::Toughness, UpgradeLevel::Level1) => {
            player.ranged_weapons.push(None);
        },
        (UpgradeType::Toughness, UpgradeLevel::Level2) => {
            hit_points.max = hit_points.max * 2;
            hit_points.current = hit_points.current * 2;
        },
        (UpgradeType::Accuracy, UpgradeLevel::Level1) => {
            player.traits.reduce_hull_pen = true;
        },
        (UpgradeType::Accuracy, UpgradeLevel::Level2) => {
            player.traits.double_damage = true;
        },
        (UpgradeType::Endurance, UpgradeLevel::Level1) => {
            player.traits.half_vacuum_pull = true;
        },
        (UpgradeType::Endurance, UpgradeLevel::Level2) => {
            oxygen.max = oxygen.max * 2;
            oxygen.current = oxygen.current * 2;
        },
    }
    Ok(())
}

/// Once an upgrade is bought, it is no longer offered: the line it belongs to offers the next
/// level, or nothing after level 2.
pub proof fn law_bought_upgrade_not_offered(table: UpgradeTable, upgrade: Upgrade)
    ensures
        !available_upgrades_spec(table_after(table, upgrade)).contains(upgrade),
        table_level(table_after(table, upgrade), upgrade.typ) == Some(upgrade.level),
{
    let t = table_after(table, upgrade);
    let s = available_upgrades_spec(t);
    if s.contains(upgrade) {
        let i = choose|i: int| 0 <= i < s.len() && s[i] == upgrade;
        assert(s[i] == upgrade);
    }
}


/// Each trait is granted by exactly one upgrade: half hull piercing by accuracy level 1, double
/// damage by accuracy level 2, half vacuum pull by endurance level 1. Buying any other upgrade
/// leaves a trait as it was, and a granted trait is never taken away.
pub proof fn law_each_trait_has_one_upgrade(traits: PlayerTraits, upgrade: Upgrade)
    ensures
        traits_after(traits, upgrade).reduce_hull_pen == (traits.reduce_hull_pen || (upgrade.typ
            == UpgradeType::Accuracy && upgrade.level == UpgradeLevel::Level1)),
        traits_after(traits, upgrade).double_damage == (traits.double_damage || (upgrade.typ
            == UpgradeType::Accuracy && upgrade.level == UpgradeLevel::Level2)),
        traits_after(traits, upgrade).half_vacuum_pull == (traits.half_vacuum_pull || (upgrade.typ
            == UpgradeType::Endurance && upgrade.level == UpgradeLevel::Level1)),
        upgrade.typ == UpgradeType::Toughness || (upgrade.typ == UpgradeType::Endurance && upgrade.level
            == UpgradeLevel::Level2) ==> traits_after(traits, upgrade) == traits,
{
}

} // verus!
