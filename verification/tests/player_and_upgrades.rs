use boat_journey::action::{apply_upgrade, Error, HitPoints, Oxygen};
use boat_journey::fade::{period_per_frame, FadeProgress, FadeState, FRAME_DURATION_NANOS};
use boat_journey::player::{
    Ammo, Player, RangedWeaponSlot, Upgrade, UpgradeLevel, UpgradeType, Weapon, WeaponAbility,
    WeaponName,
};

#[test]
fn new_player_has_bare_hands_and_two_slots() {
    let p = Player::new();
    assert_eq!(p.melee_weapon.name, WeaponName::BareHands);
    assert_eq!(p.melee_dmg(), 2);
    assert_eq!(p.melee_pen(), 2);
    assert_eq!(p.credit, 0);
    assert_eq!(p.ranged_weapons.len(), 2);
    assert!(p.ranged_weapons.iter().all(|w| w.is_none()));
}

#[test]
fn new_player_is_offered_level_one_of_each_line() {
    let p = Player::new();
    let ups = p.available_upgrades();
    assert_eq!(
        ups,
        vec![
            Upgrade { typ: UpgradeType::Toughness, level: UpgradeLevel::Level1 },
            Upgrade { typ: UpgradeType::Accuracy, level: UpgradeLevel::Level1 },
            Upgrade { typ: UpgradeType::Endurance, level: UpgradeLevel::Level1 },
        ]
    );
}

#[test]
fn weapon_stats() {
    let w = Weapon::new_shotgun();
    assert_eq!(w.ammo, Some(Ammo::new_full(8)));
    assert_eq!((w.pen, w.dmg, w.hull_pen_percent), (3, 5, 30));
    assert_eq!(w.abilities, vec![WeaponAbility::KnockBack]);
    assert!(w.is_ranged());
    assert!(!w.is_melee());
    let c = Weapon::new_chainsaw();
    assert!(c.is_melee());
    assert!(!c.is_ranged());
    assert_eq!((c.pen, c.dmg), (10, 5));
    let g = Weapon::new_gaus_cannon();
    assert_eq!(g.ammo, Some(Ammo { current: 1, max: 1 }));
    assert_eq!((g.pen, g.dmg), (20, 10));
    let r = Weapon::new_railgun();
    assert_eq!((r.pen, r.dmg, r.hull_pen_percent), (100, 5, 50));
    let rifle = Weapon::new_rifle();
    assert_eq!((rifle.pen, rifle.dmg, rifle.hull_pen_percent), (8, 2, 20));
    assert_eq!(Weapon::new_oxidiser().abilities, vec![WeaponAbility::Oxidise]);
    assert_eq!(Weapon::new_life_stealer().abilities, vec![WeaponAbility::LifeSteal]);
    let bare = Weapon::new_bare_hands();
    assert!(!bare.is_melee() && !bare.is_ranged());
}

#[test]
fn slots_and_costs() {
    assert_eq!(RangedWeaponSlot::Slot1.index(), 0);
    assert_eq!(RangedWeaponSlot::Slot3.index(), 2);
    assert_eq!(UpgradeLevel::Level1.cost(), 5);
    assert_eq!(UpgradeLevel::Level2.cost(), 10);
}

#[test]
fn upgrade_refused_without_credit() {
    let mut p = Player::new();
    let mut hp = HitPoints { current: 4, max: 4 };
    let mut ox = Oxygen { current: 10, max: 10 };
    let up = Upgrade { typ: UpgradeType::Toughness, level: UpgradeLevel::Level1 };
    assert_eq!(apply_upgrade(&mut p, &mut hp, &mut ox, up), Err(Error::CannotAffordUpgrade));
    assert_eq!(p.credit, 0);
    assert_eq!(p.ranged_weapons.len(), 2);
    assert_eq!(p.upgrade_table.toughness, None);
}

#[test]
fn toughness_upgrades_add_slot_then_double_hit_points() {
    let mut p = Player::new();
    p.credit = 20;
    let mut hp = HitPoints { current: 3, max: 4 };
    let mut ox = Oxygen { current: 10, max: 10 };
    let up1 = Upgrade { typ: UpgradeType::Toughness, level: UpgradeLevel::Level1 };
    assert_eq!(apply_upgrade(&mut p, &mut hp, &mut ox, up1), Ok(()));
    assert_eq!(p.credit, 15);
    assert_eq!(p.ranged_weapons.len(), 3);
    assert!(!p.available_upgrades().contains(&up1));
    let up2 = Upgrade { typ: UpgradeType::Toughness, level: UpgradeLevel::Level2 };
    assert_eq!(apply_upgrade(&mut p, &mut hp, &mut ox, up2), Ok(()));
    assert_eq!(p.credit, 5);
    assert_eq!(hp, HitPoints { current: 6, max: 8 });
    assert_eq!(ox, Oxygen { current: 10, max: 10 });
    assert!(!p.available_upgrades().contains(&up2));
    assert_eq!(p.available_upgrades().len(), 2);
}

#[test]
fn accuracy_and_endurance_upgrades_set_traits() {
    let mut p = Player::new();
    p.credit = 100;
    let mut hp = HitPoints { current: 4, max: 4 };
    let mut ox = Oxygen { current: 7, max: 9 };
    let acc1 = Upgrade { typ: UpgradeType::Accuracy, level: UpgradeLevel::Level1 };
    let acc2 = Upgrade { typ: UpgradeType::Accuracy, level: UpgradeLevel::Level2 };
    let end1 = Upgrade { typ: UpgradeType::Endurance, level: UpgradeLevel::Level1 };
    let end2 = Upgrade { typ: UpgradeType::Endurance, level: UpgradeLevel::Level2 };
    apply_upgrade(&mut p, &mut hp, &mut ox, acc1).unwrap();
    assert!(p.traits.reduce_hull_pen);
    apply_upgrade(&mut p, &mut hp, &mut ox, acc2).unwrap();
    assert!(p.traits.double_damage);
    apply_upgrade(&mut p, &mut hp, &mut ox, end1).unwrap();
    assert!(p.traits.half_vacuum_pull);
    apply_upgrade(&mut p, &mut hp, &mut ox, end2).unwrap();
    assert_eq!(ox, Oxygen { current: 14, max: 18 });
    assert_eq!(p.credit, 100 - 5 - 10 - 5 - 10);
}

#[test]
fn period_per_frame_divides_a_frame() {
    assert_eq!(FRAME_DURATION_NANOS, 16_666_000);
    assert_eq!(period_per_frame(1), 16_666_000);
    assert_eq!(period_per_frame(4), 4_166_500);
    assert_eq!(period_per_frame(3), 5_555_333);
}

#[test]
fn fade_progress_queries() {
    assert_eq!(FadeProgress::Fading(7).fading(), Some(7));
    assert_eq!(FadeProgress::Complete.fading(), None);
    assert!(FadeProgress::Complete.is_complete());
    assert!(!FadeProgress::Fading(255).is_complete());
    assert_eq!(FadeProgress::default(), FadeProgress::Fading(0));
}

#[test]
fn fade_completes_after_256_ticks() {
    let mut f = FadeState::new(2560);
    assert_eq!(f.period, 10);
    for i in 1..256u32 {
        let (p, period) = f.tick();
        assert_eq!(p, FadeProgress::Fading(i as u8));
        assert_eq!(period, 10);
    }
    let (p, _) = f.tick();
    assert_eq!(p, FadeProgress::Complete);
    let (p, _) = f.tick();
    assert_eq!(p, FadeProgress::Complete);
    assert_eq!(f.fading(), None);
}

#[test]
fn fade_with_progress_starts_there() {
    let mut f = FadeState::new_with_progress(512, FadeProgress::Fading(254));
    assert_eq!(f.period, 2);
    assert_eq!(f.fading(), Some(254));
    assert_eq!(f.tick().0, FadeProgress::Fading(255));
    assert_eq!(f.tick().0, FadeProgress::Complete);
}
