use boat_journey::data::{Junk, Npc};
use boat_journey::meter::Meter;

#[test]
fn meter_new_keeps_values() {
    let m = Meter::new(3, 10);
    assert_eq!(m.current(), 3);
    assert_eq!(m.max(), 10);
    assert_eq!(m.current_and_max(), (3, 10));
}

#[test]
fn meter_set_current_clamps_to_max() {
    let mut m = Meter::new(3, 10);
    m.set_current(25);
    assert_eq!(m.current(), 10);
    m.set_current(4);
    assert_eq!(m.current(), 4);
}

#[test]
fn meter_decrease_stops_at_zero() {
    let mut m = Meter::new(3, 10);
    m.decrease(2);
    assert_eq!(m.current(), 1);
    m.decrease(5);
    assert_eq!(m.current(), 0);
    assert!(m.is_empty());
}

#[test]
fn meter_increase_stops_at_max() {
    let mut m = Meter::new(8, 10);
    m.increase(1);
    assert_eq!(m.current(), 9);
    m.increase(7);
    assert_eq!(m.current(), 10);
    assert!(m.is_full());
}

#[test]
fn meter_set_max_lowers_current() {
    let mut m = Meter::new(8, 10);
    m.set_max(5);
    assert_eq!(m.current_and_max(), (5, 5));
    m.set_max(20);
    assert_eq!(m.current_and_max(), (5, 20));
}

#[test]
fn meter_fill_reaches_max() {
    let mut m = Meter::new(0, 7);
    assert!(m.is_empty());
    assert!(!m.is_full());
    m.fill();
    assert_eq!(m.current(), 7);
    assert!(m.is_full());
}

#[test]
fn meter_increase_then_decrease_gives_back_value() {
    let mut m = Meter::new(4, 10);
    m.increase(3);
    m.decrease(3);
    assert_eq!(m.current(), 4);
}

#[test]
fn meter_stays_within_max() {
    let mut m = Meter::new(2, 6);
    m.set_current(100);
    assert!(m.current() <= m.max());
    m.increase(50);
    assert!(m.current() <= m.max());
    m.decrease(1);
    assert!(m.current() <= m.max());
}

#[test]
fn junk_names() {
    assert_eq!(Junk::RotaryPhone.name(), "rotary telephone");
    assert_eq!(Junk::VhsTape.name(), "VHS tape");
    assert_eq!(Junk::CassettePlayer.name(), "cassette player");
}

#[test]
fn junk_all_lists_every_kind_once() {
    let all = Junk::all();
    assert_eq!(all.len(), 6);
    assert_eq!(all[0], Junk::RotaryPhone);
    assert_eq!(all[5], Junk::CassettePlayer);
}

#[test]
fn npc_all_lists_seven() {
    let all = Npc::all();
    assert_eq!(all.len(), 7);
    assert_eq!(all[0], Npc::Soldier);
    assert_eq!(all[3], Npc::Phantom);
    assert_eq!(all[6], Npc::Surveyor);
}

#[test]
fn npc_names_and_abilities() {
    assert_eq!(Npc::Phantom.name(), "Ghost");
    assert_eq!(Npc::Surgeon.name(), "Surgeon");
    assert_eq!(Npc::Physicist.ability_name(), "Blink");
    assert_eq!(Npc::Surveyor.ability_name(), "Telescope");
    for npc in Npc::all() {
        assert_eq!(npc.ability_uses(), 2);
    }
}

#[test]
fn npc_text_starts_with_name() {
    let text = Npc::Thief.text();
    assert_eq!(
        text,
        "Thief:\n\nI'm trying to escape to the ocean. Will you help me get there? With me you can sneak past your enemies."
    );
    for npc in Npc::all() {
        let t = npc.text();
        assert!(t.starts_with(&format!("{}:\n\n", npc.name())));
    }
}
