use rusty_roguelike::gamelog::{
    write_confuse, write_damage, write_drop, write_equip, write_heal, write_melee, write_number,
    write_pickup, write_unequip, Gamelog,
};

#[test]
fn numbers_are_written_in_decimal() {
    assert_eq!(write_number(0), "0");
    assert_eq!(write_number(7), "7");
    assert_eq!(write_number(10), "10");
    assert_eq!(write_number(1234567), "1234567");
    assert_eq!(write_number(-1), "-1");
    assert_eq!(write_number(-42), "-42");
    assert_eq!(write_number(i32::MAX), "2147483647");
    assert_eq!(write_number(i32::MIN), "-2147483648");
    for n in [-1000, -999, -10, 9, 11, 99, 100, 101, 65536] {
        assert_eq!(write_number(n), n.to_string());
    }
}

#[test]
fn every_message_is_worded_as_the_log_shows_it() {
    assert_eq!(write_pickup("Dagger"), "You pick up the Dagger.");
    assert_eq!(write_drop("Dagger"), "You drop the Dagger.");
    assert_eq!(write_unequip("Dagger"), "You unequip Dagger.");
    assert_eq!(write_equip("Longsword"), "You equip Longsword.");
    assert_eq!(write_damage("Fireball Scroll", "Orc", 20), "You use Fireball Scroll on Orc, inflicting 20 hp.");
    assert_eq!(write_heal("Health Potion", 8), "You drink the Health Potion, healing 8 hp.");
    assert_eq!(write_heal("Tonic", -3), "You drink the Tonic, healing -3 hp.");
    assert_eq!(write_confuse("Confusion Scroll", "Orc"), "You use Confusion Scroll on Orc, confusing them.");
    assert_eq!(write_melee("Goblin", "Player", 3), "Goblin hits Player, for 3 hp.");
    assert_eq!(write_pickup(""), "You pick up the .");
}

#[test]
fn the_log_keeps_its_order() {
    let mut log = Gamelog::new();
    assert!(log.entries.is_empty());
    log.push("one".to_string());
    log.push("two".to_string());
    assert_eq!(log.entries, vec!["one".to_string(), "two".to_string()]);
}
