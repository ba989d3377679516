use rusty_roguelike::components::{
    AreaOfEffect, BlocksTile, CombatStats, Confusion, Consumable, Entity, EquipmentSlot,
    Equippable, Equipped, InBackpack, InflictsDamage, Item, Name, Position, ProvidesHealing,
    SufferDamage, TurnError, WantsToDropItem, WantsToMelee, WantsToPickupItem, WantsToUseItem,
};
use rusty_roguelike::damage_system::{delete_the_dead, DamageSystem};
use rusty_roguelike::inventory_system::{ItemCollectionSystem, ItemDropSystem, ItemUseSystem};
use rusty_roguelike::map::{Rect, TileMap};
use rusty_roguelike::map_builders::common::apply_room_to_map;
use rusty_roguelike::map_indexing_system::MapIndexingSystem;
use rusty_roguelike::melee_combat_system::MeleeCombatSystem;
use rusty_roguelike::monster_ai_system::{Decision, MonsterAI};
use rusty_roguelike::player::{player_input, Command};
use rusty_roguelike::visibility_system::VisibilitySystem;
use rusty_roguelike::world::World;
use rusty_roguelike::{RunState, Senses, State};

/// A 10 by 10 level whose tiles 1..=8 by 1..=8 are floor.
fn arena() -> World {
    let mut map = TileMap::new(10, 10, 1);
    apply_room_to_map(&mut map, &Rect::new(0, 0, 8, 8));
    World::new(map)
}

fn at(x: i32, y: i32) -> Position {
    Position { x, y }
}

fn creature(w: &mut World, name: &str, x: i32, y: i32, hp: i32, defense: i32, power: i32) -> Entity {
    let e = w.create_entity();
    w.positions.insert(e, at(x, y));
    w.names.insert(e, Name { name: name.to_string() });
    w.combat_stats.insert(e, CombatStats { max_hp: hp, hp, defense, power });
    w.blocks_tile.insert(e, BlocksTile {});
    e
}

fn hero(w: &mut World, x: i32, y: i32, hp: i32) -> Entity {
    let e = creature(w, "Player", x, y, hp, 2, 5);
    w.player = e;
    e
}

fn carried(w: &mut World, name: &str, owner: Entity) -> Entity {
    let e = w.create_entity();
    w.names.insert(e, Name { name: name.to_string() });
    w.items.insert(e, Item {});
    w.in_backpack.insert(e, InBackpack { owner });
    e
}

fn lying(w: &mut World, name: &str, x: i32, y: i32) -> Entity {
    let e = w.create_entity();
    w.names.insert(e, Name { name: name.to_string() });
    w.items.insert(e, Item {});
    w.positions.insert(e, at(x, y));
    e
}

fn nothing_sensed() -> Senses {
    Senses { sight: None, decisions: Vec::new(), blasts: Vec::new() }
}

fn hp_of(w: &World, e: Entity) -> i32 {
    w.combat_stats.get(e).expect("no stats").hp
}

fn queue_of(w: &World, e: Entity) -> Vec<i32> {
    match w.suffer_damage.get(e) {
        Some(SufferDamage { amount }) => amount.clone(),
        None => Vec::new(),
    }
}

fn is_gone(w: &World, e: Entity) -> bool {
    !w.positions.has(e)
        && !w.names.has(e)
        && !w.combat_stats.has(e)
        && !w.in_backpack.has(e)
        && !w.equipped.has(e)
        && !w.items.has(e)
        && !w.consumable.has(e)
        && !w.provides_healing.has(e)
        && !w.inflicts_damage.has(e)
        && !w.area_of_effect.has(e)
        && !w.confusion.has(e)
        && !w.equippable.has(e)
}

// ---------------------------------------------------------------------------
// the entity store
// ---------------------------------------------------------------------------
#[test]
fn new_world_is_in_order_and_empty() {
    let w = arena();
    assert!(w.is_well_formed());
    assert_eq!(w.count(), 0);
    assert_eq!(w.runstate, RunState::PreRun);
    assert!(w.log.entries.is_empty());
}

#[test]
fn created_entities_are_numbered_in_order() {
    let mut w = arena();
    assert_eq!(w.create_entity(), 0);
    assert_eq!(w.create_entity(), 1);
    assert_eq!(w.count(), 2);
    assert!(!w.positions.has(0));
    assert!(w.is_well_formed());
}

#[test]
fn tables_insert_get_remove() {
    let mut w = arena();
    let e = w.create_entity();
    assert!(w.positions.get(e).is_none());
    w.positions.insert(e, at(3, 4));
    assert!(w.positions.has(e));
    assert_eq!(w.positions.get(e), Some(&at(3, 4)));
    assert_eq!(w.positions.remove(e), Some(at(3, 4)));
    assert!(!w.positions.has(e));
    assert_eq!(w.positions.remove(e), None);
    assert_eq!(w.positions.remove(99), None);
    assert!(!w.positions.has(99));
    assert!(w.positions.get(99).is_none());
}

#[test]
fn clear_empties_a_table_and_keeps_its_rows() {
    let mut w = arena();
    let a = w.create_entity();
    let b = w.create_entity();
    w.wants_melee.insert(a, WantsToMelee { target: b });
    w.wants_melee.insert(b, WantsToMelee { target: a });
    w.wants_melee.clear();
    assert_eq!(w.wants_melee.len(), 2);
    assert!(!w.wants_melee.has(a));
    assert!(!w.wants_melee.has(b));
}

#[test]
fn an_entity_in_two_places_is_out_of_order() {
    let mut w = arena();
    let owner = hero(&mut w, 1, 1, 10);
    let item = lying(&mut w, "Dagger", 2, 2);
    assert!(w.is_well_formed());
    w.in_backpack.insert(item, InBackpack { owner });
    assert!(!w.is_well_formed());
    w.positions.remove(item);
    assert!(w.is_well_formed());
    w.equipped.insert(item, Equipped { owner, slot: EquipmentSlot::Melee });
    assert!(!w.is_well_formed());
}

#[test]
fn two_items_in_one_slot_are_out_of_order() {
    let mut w = arena();
    let owner = hero(&mut w, 1, 1, 10);
    let a = w.create_entity();
    let b = w.create_entity();
    w.equipped.insert(a, Equipped { owner, slot: EquipmentSlot::Melee });
    w.equipped.insert(b, Equipped { owner, slot: EquipmentSlot::Shield });
    assert!(w.is_well_formed());
    w.equipped.insert(b, Equipped { owner, slot: EquipmentSlot::Melee });
    assert!(!w.is_well_formed());
}

#[test]
fn off_map_positions_and_excess_hit_points_are_out_of_order() {
    let mut w = arena();
    let e = hero(&mut w, 1, 1, 10);
    w.positions.insert(e, at(10, 1));
    assert!(!w.is_well_formed());
    w.positions.insert(e, at(9, 9));
    assert!(w.is_well_formed());
    w.combat_stats.insert(e, CombatStats { max_hp: 10, hp: 11, defense: 0, power: 0 });
    assert!(!w.is_well_formed());
    w.combat_stats.insert(e, CombatStats { max_hp: 10, hp: -1, defense: 0, power: 0 });
    assert!(!w.is_well_formed());
}

#[test]
fn delete_entity_takes_every_attribute() {
    let mut w = arena();
    let p = hero(&mut w, 1, 1, 10);
    let g = creature(&mut w, "Goblin", 2, 2, 5, 0, 1);
    w.wants_melee.insert(g, WantsToMelee { target: p });
    w.hurt(g, 3);
    w.delete_entity(g);
    assert!(is_gone(&w, g));
    assert!(!w.wants_melee.has(g));
    assert!(!w.suffer_damage.has(g));
    assert!(!w.blocks_tile.has(g));
    assert_eq!(w.count(), 2);
    assert_eq!(hp_of(&w, p), 10);
    assert!(w.is_well_formed());
}

// ---------------------------------------------------------------------------
// picking up
// ---------------------------------------------------------------------------
#[test]
fn pickup_moves_the_item_from_the_map_to_the_backpack() {
    let mut w = arena();
    let p = hero(&mut w, 3, 3, 10);
    let potion = lying(&mut w, "Health Potion", 3, 3);
    w.wants_pickup.insert(p, WantsToPickupItem { collected_by: p, item: potion });
    let mut pass = ItemCollectionSystem {};
    assert_eq!(pass.run(&mut w), Ok(()));
    assert!(!w.positions.has(potion));
    assert_eq!(w.in_backpack.get(potion), Some(&InBackpack { owner: p }));
    assert!(!w.equipped.has(potion));
    assert_eq!(w.log.entries, vec!["You pick up the Health Potion.".to_string()]);
    assert!(!w.wants_pickup.has(p));
    assert!(w.is_well_formed());
}

#[test]
fn pickup_by_a_monster_is_not_logged() {
    let mut w = arena();
    let _p = hero(&mut w, 3, 3, 10);
    let g = creature(&mut w, "Goblin", 4, 4, 5, 0, 1);
    let nameless = w.create_entity();
    w.positions.insert(nameless, at(4, 4));
    w.wants_pickup.insert(g, WantsToPickupItem { collected_by: g, item: nameless });
    let mut pass = ItemCollectionSystem {};
    assert_eq!(pass.run(&mut w), Ok(()));
    assert_eq!(w.in_backpack.get(nameless), Some(&InBackpack { owner: g }));
    assert!(w.log.entries.is_empty());
}

#[test]
fn pickup_of_a_nameless_item_by_the_player_is_a_fault() {
    let mut w = arena();
    let p = hero(&mut w, 3, 3, 10);
    let thing = w.create_entity();
    w.positions.insert(thing, at(3, 3));
    w.wants_pickup.insert(p, WantsToPickupItem { collected_by: p, item: thing });
    let mut pass = ItemCollectionSystem {};
    assert_eq!(pass.run(&mut w), Err(TurnError::MissingName(thing)));
    assert_eq!(w.positions.get(thing), Some(&at(3, 3)));
    assert!(!w.in_backpack.has(thing));
    assert!(w.wants_pickup.has(p));
    assert!(w.log.entries.is_empty());
}

#[test]
fn pickup_of_an_item_that_is_not_on_the_map_is_a_fault() {
    let mut w = arena();
    let p = hero(&mut w, 3, 3, 10);
    let g = creature(&mut w, "Goblin", 4, 4, 5, 0, 1);
    let dagger = carried(&mut w, "Dagger", g);
    w.wants_pickup.insert(p, WantsToPickupItem { collected_by: p, item: dagger });
    let mut pass = ItemCollectionSystem {};
    assert_eq!(pass.run(&mut w), Err(TurnError::MissingPosition(dagger)));
    assert_eq!(w.in_backpack.get(dagger), Some(&InBackpack { owner: g }));
    let mut second = arena();
    let other = hero(&mut second, 3, 3, 10);
    second.wants_pickup.insert(other, WantsToPickupItem { collected_by: other, item: 77 });
    assert_eq!(pass.run(&mut second), Err(TurnError::MissingPosition(77)));
}

#[test]
fn a_fault_keeps_what_was_resolved_before_it() {
    let mut w = arena();
    let p = hero(&mut w, 3, 3, 10);
    let g = creature(&mut w, "Goblin", 4, 4, 5, 0, 1);
    let coin = lying(&mut w, "Coin", 3, 3);
    w.wants_pickup.insert(p, WantsToPickupItem { collected_by: p, item: coin });
    w.wants_pickup.insert(g, WantsToPickupItem { collected_by: g, item: coin });
    let mut pass = ItemCollectionSystem {};
    assert_eq!(pass.run(&mut w), Err(TurnError::MissingPosition(coin)));
    assert_eq!(w.in_backpack.get(coin), Some(&InBackpack { owner: p }));
    assert_eq!(w.log.entries.len(), 1);
    assert!(w.is_well_formed());
}

// ---------------------------------------------------------------------------
// dropping
// ---------------------------------------------------------------------------
#[test]
fn drop_lays_the_item_where_the_dropper_stands() {
    let mut w = arena();
    let p = hero(&mut w, 5, 6, 10);
    let dagger = carried(&mut w, "Dagger", p);
    w.wants_drop.insert(p, WantsToDropItem { item: dagger });
    let mut pass = ItemDropSystem {};
    assert_eq!(pass.run(&mut w), Ok(()));
    assert_eq!(w.positions.get(dagger), Some(&at(5, 6)));
    assert!(!w.in_backpack.has(dagger));
    assert_eq!(w.log.entries, vec!["You drop the Dagger.".to_string()]);
    assert!(!w.wants_drop.has(p));
    assert!(w.is_well_formed());
}

#[test]
fn dropping_an_equipped_item_is_rejected() {
    let mut w = arena();
    let p = hero(&mut w, 5, 6, 10);
    let sword = w.create_entity();
    w.names.insert(sword, Name { name: "Longsword".to_string() });
    w.equipped.insert(sword, Equipped { owner: p, slot: EquipmentSlot::Melee });
    w.wants_drop.insert(p, WantsToDropItem { item: sword });
    let mut pass = ItemDropSystem {};
    assert_eq!(pass.run(&mut w), Err(TurnError::NotInBackpack(sword)));
    assert_eq!(w.equipped.get(sword), Some(&Equipped { owner: p, slot: EquipmentSlot::Melee }));
    assert!(!w.positions.has(sword));
    assert!(w.log.entries.is_empty());
    assert!(w.is_well_formed());
}

#[test]
fn dropping_what_somebody_else_carries_is_rejected() {
    let mut w = arena();
    let p = hero(&mut w, 5, 6, 10);
    let g = creature(&mut w, "Goblin", 4, 4, 5, 0, 1);
    let dagger = carried(&mut w, "Dagger", g);
    w.wants_drop.insert(p, WantsToDropItem { item: dagger });
    let mut pass = ItemDropSystem {};
    assert_eq!(pass.run(&mut w), Err(TurnError::NotInBackpack(dagger)));
}

#[test]
fn a_dropper_that_is_nowhere_is_a_fault() {
    let mut w = arena();
    let _p = hero(&mut w, 5, 6, 10);
    let ghost = w.create_entity();
    let dagger = carried(&mut w, "Dagger", ghost);
    w.wants_drop.insert(ghost, WantsToDropItem { item: dagger });
    let mut pass = ItemDropSystem {};
    assert_eq!(pass.run(&mut w), Err(TurnError::MissingPosition(ghost)));
}

#[test]
fn dropping_a_nameless_item_by_the_player_is_a_fault() {
    let mut w = arena();
    let p = hero(&mut w, 5, 6, 10);
    let thing = w.create_entity();
    w.in_backpack.insert(thing, InBackpack { owner: p });
    w.wants_drop.insert(p, WantsToDropItem { item: thing });
    let mut pass = ItemDropSystem {};
    assert_eq!(pass.run(&mut w), Err(TurnError::MissingName(thing)));
}

// ---------------------------------------------------------------------------
// using
// ---------------------------------------------------------------------------
#[test]
fn drinking_a_potion_at_full_health_heals_nothing_and_uses_it_up() {
    let mut w = arena();
    let p = hero(&mut w, 3, 3, 10);
    let potion = carried(&mut w, "Health Potion", p);
    w.consumable.insert(potion, Consumable {});
    w.provides_healing.insert(potion, ProvidesHealing { heal_amount: 999 });
    w.wants_use.insert(p, WantsToUseItem { item: potion, target: None });
    let mut pass = ItemUseSystem {};
    assert_eq!(pass.run(&mut w, &Vec::new()), Ok(()));
    assert_eq!(hp_of(&w, p), 10);
    assert!(is_gone(&w, potion));
    assert_eq!(w.log.entries, vec!["You drink the Health Potion, healing 0 hp.".to_string()]);
    assert!(!w.wants_use.has(p));
    assert!(w.is_well_formed());
}

#[test]
fn healing_raises_hit_points_up_to_the_most() {
    let mut w = arena();
    let p = hero(&mut w, 3, 3, 30);
    w.combat_stats.insert(p, CombatStats { max_hp: 30, hp: 12, defense: 2, power: 5 });
    let potion = carried(&mut w, "Health Potion", p);
    w.provides_healing.insert(potion, ProvidesHealing { heal_amount: 8 });
    w.wants_use.insert(p, WantsToUseItem { item: potion, target: None });
    let mut pass = ItemUseSystem {};
    assert_eq!(pass.run(&mut w, &Vec::new()), Ok(()));
    assert_eq!(hp_of(&w, p), 20);
    assert_eq!(w.log.entries, vec!["You drink the Health Potion, healing 8 hp.".to_string()]);
    assert!(w.names.has(potion));
    w.combat_stats.insert(p, CombatStats { max_hp: 30, hp: 25, defense: 2, power: 5 });
    w.wants_use.insert(p, WantsToUseItem { item: potion, target: None });
    assert_eq!(pass.run(&mut w, &Vec::new()), Ok(()));
    assert_eq!(hp_of(&w, p), 30);
    assert_eq!(w.log.entries[1], "You drink the Health Potion, healing 5 hp.");
}

#[test]
fn an_area_item_damages_everybody_in_the_blast() {
    let mut w = arena();
    let p = hero(&mut w, 1, 1, 10);
    let weak = creature(&mut w, "Goblin", 4, 5, 4, 0, 1);
    let strong = creature(&mut w, "Orc", 6, 5, 10, 0, 1);
    let far = creature(&mut w, "Bat", 8, 8, 3, 0, 1);
    let scroll = carried(&mut w, "Fireball Scroll", p);
    w.inflicts_damage.insert(scroll, InflictsDamage { damage: 4 });
    w.area_of_effect.insert(scroll, AreaOfEffect { radius: 2 });
    let mut index = MapIndexingSystem {};
    index.run(&mut w);
    w.wants_use.insert(p, WantsToUseItem { item: scroll, target: Some(at(5, 5)) });
    assert_eq!(ItemUseSystem::blast_request(&w, p), Some((at(5, 5), 2)));
    assert_eq!(ItemUseSystem::blast_request(&w, weak), None);
    let blast = vec![at(5, 5), at(4, 5), at(6, 5), at(0, 5), at(4, 5), at(12, 5)];
    let mut pass = ItemUseSystem {};
    assert_eq!(pass.run(&mut w, &vec![blast]), Ok(()));
    assert_eq!(queue_of(&w, weak), vec![4]);
    assert_eq!(queue_of(&w, strong), vec![4]);
    assert_eq!(queue_of(&w, far), Vec::<i32>::new());
    assert_eq!(queue_of(&w, p), Vec::<i32>::new());
    assert_eq!(
        w.log.entries,
        vec![
            "You use Fireball Scroll on Goblin, inflicting 4 hp.".to_string(),
            "You use Fireball Scroll on Orc, inflicting 4 hp.".to_string(),
        ]
    );
    assert_eq!(hp_of(&w, weak), 4);
    let mut damage = DamageSystem {};
    damage.run(&mut w);
    assert_eq!(hp_of(&w, weak), 0);
    assert_eq!(hp_of(&w, strong), 6);
    assert!(!w.suffer_damage.has(weak));
    assert!(w.names.has(weak));
    delete_the_dead(&mut w);
    assert!(is_gone(&w, weak));
    assert_eq!(hp_of(&w, strong), 6);
    assert_eq!(hp_of(&w, far), 3);
    assert!(w.is_well_formed());
}

#[test]
fn an_item_on_the_edge_of_the_map_is_out_of_the_blast() {
    let mut w = arena();
    let p = hero(&mut w, 1, 1, 10);
    let edge = creature(&mut w, "Goblin", 9, 5, 4, 0, 1);
    let scroll = carried(&mut w, "Fireball Scroll", p);
    w.inflicts_damage.insert(scroll, InflictsDamage { damage: 4 });
    w.area_of_effect.insert(scroll, AreaOfEffect { radius: 2 });
    let mut index = MapIndexingSystem {};
    index.run(&mut w);
    w.wants_use.insert(p, WantsToUseItem { item: scroll, target: Some(at(8, 5)) });
    let mut pass = ItemUseSystem {};
    assert_eq!(pass.run(&mut w, &vec![vec![at(8, 5), at(9, 5), at(10, 5), at(-1, -1)]]), Ok(()));
    assert_eq!(queue_of(&w, edge), Vec::<i32>::new());
    assert!(w.log.entries.is_empty());
}

#[test]
fn a_use_that_hits_nobody_still_uses_the_item_up() {
    let mut w = arena();
    let p = hero(&mut w, 1, 1, 10);
    let scroll = carried(&mut w, "Magic Missile Scroll", p);
    w.inflicts_damage.insert(scroll, InflictsDamage { damage: 8 });
    w.consumable.insert(scroll, Consumable {});
    let mut index = MapIndexingSystem {};
    index.run(&mut w);
    w.wants_use.insert(p, WantsToUseItem { item: scroll, target: Some(at(5, 5)) });
    let mut pass = ItemUseSystem {};
    assert_eq!(pass.run(&mut w, &Vec::new()), Ok(()));
    assert!(is_gone(&w, scroll));
    assert!(w.log.entries.is_empty());
    assert_eq!(queue_of(&w, p), Vec::<i32>::new());
}

#[test]
fn a_target_outside_the_map_is_nobody() {
    let mut w = arena();
    let p = hero(&mut w, 1, 1, 10);
    let scroll = carried(&mut w, "Magic Missile Scroll", p);
    w.inflicts_damage.insert(scroll, InflictsDamage { damage: 8 });
    let mut index = MapIndexingSystem {};
    index.run(&mut w);
    w.wants_use.insert(p, WantsToUseItem { item: scroll, target: Some(at(40, -3)) });
    let mut pass = ItemUseSystem {};
    assert_eq!(pass.run(&mut w, &Vec::new()), Ok(()));
    assert!(w.log.entries.is_empty());
}

#[test]
fn a_single_target_item_hits_who_stands_on_the_tile() {
    let mut w = arena();
    let p = hero(&mut w, 1, 1, 10);
    let g = creature(&mut w, "Goblin", 4, 5, 9, 0, 1);
    let scroll = carried(&mut w, "Magic Missile Scroll", p);
    w.inflicts_damage.insert(scroll, InflictsDamage { damage: 8 });
    let mut index = MapIndexingSystem {};
    index.run(&mut w);
    w.wants_use.insert(p, WantsToUseItem { item: scroll, target: Some(at(4, 5)) });
    let mut pass = ItemUseSystem {};
    assert_eq!(pass.run(&mut w, &Vec::new()), Ok(()));
    assert_eq!(queue_of(&w, g), vec![8]);
    assert_eq!(w.log.entries, vec!["You use Magic Missile Scroll on Goblin, inflicting 8 hp.".to_string()]);
}

#[test]
fn confusion_is_set_and_replaced() {
    let mut w = arena();
    let p = hero(&mut w, 1, 1, 10);
    let g = creature(&mut w, "Goblin", 4, 5, 9, 0, 1);
    w.confusion.insert(g, Confusion { turns: 9 });
    let scroll = carried(&mut w, "Confusion Scroll", p);
    w.confusion.insert(scroll, Confusion { turns: 4 });
    let mut index = MapIndexingSystem {};
    index.run(&mut w);
    w.wants_use.insert(p, WantsToUseItem { item: scroll, target: Some(at(4, 5)) });
    let mut pass = ItemUseSystem {};
    assert_eq!(pass.run(&mut w, &Vec::new()), Ok(()));
    assert_eq!(w.confusion.get(g), Some(&Confusion { turns: 4 }));
    assert_eq!(w.log.entries, vec!["You use Confusion Scroll on Goblin, confusing them.".to_string()]);
}

#[test]
fn equipping_puts_the_old_item_back_in_the_backpack() {
    let mut w = arena();
    let p = hero(&mut w, 1, 1, 10);
    let dagger = w.create_entity();
    w.names.insert(dagger, Name { name: "Dagger".to_string() });
    w.equippable.insert(dagger, Equippable { slot: EquipmentSlot::Melee });
    w.equipped.insert(dagger, Equipped { owner: p, slot: EquipmentSlot::Melee });
    let shield = w.create_entity();
    w.names.insert(shield, Name { name: "Shield".to_string() });
    w.equipped.insert(shield, Equipped { owner: p, slot: EquipmentSlot::Shield });
    let sword = carried(&mut w, "Longsword", p);
    w.equippable.insert(sword, Equippable { slot: EquipmentSlot::Melee });
    w.wants_use.insert(p, WantsToUseItem { item: sword, target: None });
    let mut pass = ItemUseSystem {};
    assert_eq!(pass.run(&mut w, &Vec::new()), Ok(()));
    assert_eq!(w.in_backpack.get(dagger), Some(&InBackpack { owner: p }));
    assert!(!w.equipped.has(dagger));
    assert_eq!(w.equipped.get(sword), Some(&Equipped { owner: p, slot: EquipmentSlot::Melee }));
    assert!(!w.in_backpack.has(sword));
    assert_eq!(w.equipped.get(shield), Some(&Equipped { owner: p, slot: EquipmentSlot::Shield }));
    let in_melee_slot = (0..w.count())
        .filter(|e| w.equipped.get(*e) == Some(&Equipped { owner: p, slot: EquipmentSlot::Melee }))
        .count();
    assert_eq!(in_melee_slot, 1);
    assert_eq!(
        w.log.entries,
        vec!["You unequip Dagger.".to_string(), "You equip Longsword.".to_string()]
    );
    assert!(w.is_well_formed());
}

#[test]
fn effects_come_in_the_order_equip_damage_heal_confuse() {
    let mut w = arena();
    let p = hero(&mut w, 1, 1, 30);
    w.combat_stats.insert(p, CombatStats { max_hp: 30, hp: 10, defense: 2, power: 5 });
    let relic = carried(&mut w, "Relic", p);
    w.equippable.insert(relic, Equippable { slot: EquipmentSlot::Shield });
    w.inflicts_damage.insert(relic, InflictsDamage { damage: 3 });
    w.provides_healing.insert(relic, ProvidesHealing { heal_amount: 5 });
    w.confusion.insert(relic, Confusion { turns: 2 });
    w.wants_use.insert(p, WantsToUseItem { item: relic, target: None });
    let mut pass = ItemUseSystem {};
    assert_eq!(pass.run(&mut w, &Vec::new()), Ok(()));
    assert_eq!(
        w.log.entries,
        vec![
            "You equip Relic.".to_string(),
            "You use Relic on Player, inflicting 3 hp.".to_string(),
            "You drink the Relic, healing 5 hp.".to_string(),
            "You use Relic on Player, confusing them.".to_string(),
        ]
    );
    assert_eq!(hp_of(&w, p), 15);
    assert_eq!(queue_of(&w, p), vec![3]);
    assert_eq!(w.confusion.get(p), Some(&Confusion { turns: 2 }));
    assert_eq!(w.equipped.get(relic), Some(&Equipped { owner: p, slot: EquipmentSlot::Shield }));
}

#[test]
fn using_a_nameless_item_is_a_fault_for_the_player_only() {
    let mut w = arena();
    let p = hero(&mut w, 1, 1, 10);
    let g = creature(&mut w, "Goblin", 4, 5, 9, 0, 1);
    let thing = w.create_entity();
    w.provides_healing.insert(thing, ProvidesHealing { heal_amount: 1 });
    w.wants_use.insert(p, WantsToUseItem { item: thing, target: None });
    let mut pass = ItemUseSystem {};
    assert_eq!(pass.run(&mut w, &Vec::new()), Err(TurnError::MissingName(thing)));
    assert!(w.wants_use.has(p));
    w.wants_use.remove(p);
    w.combat_stats.insert(g, CombatStats { max_hp: 9, hp: 2, defense: 0, power: 1 });
    w.wants_use.insert(g, WantsToUseItem { item: thing, target: None });
    assert_eq!(pass.run(&mut w, &Vec::new()), Ok(()));
    assert_eq!(hp_of(&w, g), 3);
    assert!(w.log.entries.is_empty());
}

#[test]
fn a_nameless_target_of_the_players_damage_is_a_fault() {
    let mut w = arena();
    let p = hero(&mut w, 1, 1, 10);
    let shade = w.create_entity();
    w.positions.insert(shade, at(4, 5));
    let scroll = carried(&mut w, "Magic Missile Scroll", p);
    w.inflicts_damage.insert(scroll, InflictsDamage { damage: 8 });
    let mut index = MapIndexingSystem {};
    index.run(&mut w);
    w.wants_use.insert(p, WantsToUseItem { item: scroll, target: Some(at(4, 5)) });
    let mut pass = ItemUseSystem {};
    assert_eq!(pass.run(&mut w, &Vec::new()), Err(TurnError::MissingName(shade)));
    assert_eq!(queue_of(&w, shade), Vec::<i32>::new());
}

#[test]
fn use_item_resolves_one_use_with_its_blast() {
    let mut w = arena();
    let p = hero(&mut w, 1, 1, 10);
    let g = creature(&mut w, "Goblin", 4, 5, 9, 0, 1);
    let scroll = carried(&mut w, "Fireball Scroll", p);
    w.inflicts_damage.insert(scroll, InflictsDamage { damage: 20 });
    w.area_of_effect.insert(scroll, AreaOfEffect { radius: 3 });
    let mut index = MapIndexingSystem {};
    index.run(&mut w);
    let want = WantsToUseItem { item: scroll, target: Some(at(4, 4)) };
    assert_eq!(ItemUseSystem::use_item(&mut w, p, want, &vec![at(4, 5)]), Ok(()));
    assert_eq!(queue_of(&w, g), vec![20]);
}

// ---------------------------------------------------------------------------
// fighting
// ---------------------------------------------------------------------------
#[test]
fn a_blow_takes_power_less_defense() {
    let mut w = arena();
    let p = hero(&mut w, 1, 1, 30);
    let g = creature(&mut w, "Goblin", 1, 2, 16, 1, 4);
    w.wants_melee.insert(p, WantsToMelee { target: g });
    let mut pass = MeleeCombatSystem {};
    assert_eq!(pass.run(&mut w), Ok(()));
    assert_eq!(queue_of(&w, g), vec![4]);
    assert_eq!(hp_of(&w, g), 16);
    assert_eq!(w.log.entries, vec!["Player hits Goblin, for 4 hp.".to_string()]);
    assert!(!w.wants_melee.has(p));
}

#[test]
fn a_blow_that_cannot_hurt_queues_nothing() {
    let mut w = arena();
    let p = hero(&mut w, 1, 1, 30);
    let g = creature(&mut w, "Goblin", 1, 2, 16, 9, 2);
    w.wants_melee.insert(p, WantsToMelee { target: g });
    w.wants_melee.insert(g, WantsToMelee { target: p });
    let mut pass = MeleeCombatSystem {};
    assert_eq!(pass.run(&mut w), Ok(()));
    assert!(!w.suffer_damage.has(g));
    assert!(!w.suffer_damage.has(p));
    assert!(w.log.entries.is_empty());
}

#[test]
fn a_blow_is_no_larger_than_a_queue_entry_can_hold() {
    let mut w = arena();
    let p = hero(&mut w, 1, 1, 30);
    let g = creature(&mut w, "Goblin", 1, 2, 16, -5, 4);
    w.combat_stats.insert(p, CombatStats { max_hp: 30, hp: 30, defense: 2, power: i32::MAX });
    w.wants_melee.insert(p, WantsToMelee { target: g });
    let mut pass = MeleeCombatSystem {};
    assert_eq!(pass.run(&mut w), Ok(()));
    assert_eq!(queue_of(&w, g), vec![i32::MAX]);
}

#[test]
fn two_blows_at_one_defender_stack() {
    let mut w = arena();
    let p = hero(&mut w, 1, 1, 30);
    let a = creature(&mut w, "Goblin", 1, 2, 16, 1, 5);
    let b = creature(&mut w, "Orc", 2, 1, 16, 1, 7);
    w.wants_melee.insert(a, WantsToMelee { target: p });
    w.wants_melee.insert(b, WantsToMelee { target: p });
    let mut melee = MeleeCombatSystem {};
    assert_eq!(melee.run(&mut w), Ok(()));
    assert_eq!(queue_of(&w, p), vec![3, 5]);
    assert_eq!(hp_of(&w, p), 30);
    assert_eq!(
        w.log.entries,
        vec!["Goblin hits Player, for 3 hp.".to_string(), "Orc hits Player, for 5 hp.".to_string()]
    );
    let mut damage = DamageSystem {};
    damage.run(&mut w);
    assert_eq!(hp_of(&w, p), 22);
    assert!(!w.suffer_damage.has(p));
}

#[test]
fn stacked_blows_stop_at_nothing_and_kill_once() {
    let mut w = arena();
    let p = hero(&mut w, 1, 1, 6);
    let a = creature(&mut w, "Goblin", 1, 2, 16, 1, 5);
    let b = creature(&mut w, "Orc", 2, 1, 16, 1, 7);
    w.wants_melee.insert(a, WantsToMelee { target: p });
    w.wants_melee.insert(b, WantsToMelee { target: p });
    let mut melee = MeleeCombatSystem {};
    assert_eq!(melee.run(&mut w), Ok(()));
    let mut damage = DamageSystem {};
    damage.run(&mut w);
    assert_eq!(hp_of(&w, p), 0);
    assert!(w.names.has(p));
    delete_the_dead(&mut w);
    assert!(is_gone(&w, p));
    assert_eq!(hp_of(&w, a), 16);
}

#[test]
fn fighting_without_statistics_is_a_fault() {
    let mut w = arena();
    let p = hero(&mut w, 1, 1, 6);
    let rock = lying(&mut w, "Rock", 1, 2);
    w.wants_melee.insert(p, WantsToMelee { target: rock });
    let mut melee = MeleeCombatSystem {};
    assert_eq!(melee.run(&mut w), Err(TurnError::MissingStats(rock)));
    w.wants_melee.clear();
    w.wants_melee.insert(rock, WantsToMelee { target: p });
    assert_eq!(melee.run(&mut w), Err(TurnError::MissingStats(rock)));
}

#[test]
fn a_nameless_attacker_of_the_player_is_a_fault() {
    let mut w = arena();
    let p = hero(&mut w, 1, 1, 6);
    let g = creature(&mut w, "Goblin", 1, 2, 16, 1, 5);
    w.names.remove(g);
    w.wants_melee.insert(g, WantsToMelee { target: p });
    let mut melee = MeleeCombatSystem {};
    assert_eq!(melee.run(&mut w), Err(TurnError::MissingName(g)));
    assert!(!w.suffer_damage.has(p));
}

#[test]
fn damage_without_statistics_is_dropped() {
    let mut w = arena();
    let rock = lying(&mut w, "Rock", 1, 2);
    w.hurt(rock, 5);
    w.hurt(rock, 6);
    assert_eq!(queue_of(&w, rock), vec![5, 6]);
    let mut damage = DamageSystem {};
    damage.run(&mut w);
    assert!(!w.suffer_damage.has(rock));
    assert!(w.names.has(rock));
}

#[test]
fn negative_damage_cannot_raise_hit_points_over_the_most() {
    let mut w = arena();
    let g = creature(&mut w, "Goblin", 1, 2, 16, 1, 5);
    w.hurt(g, -100);
    let mut damage = DamageSystem {};
    damage.run(&mut w);
    assert_eq!(hp_of(&w, g), 16);
    w.hurt(g, i32::MAX);
    w.hurt(g, i32::MAX);
    w.hurt(g, i32::MIN);
    damage.run(&mut w);
    assert_eq!(hp_of(&w, g), 0);
}

// ---------------------------------------------------------------------------
// the map's records
// ---------------------------------------------------------------------------
#[test]
fn indexing_lists_who_stands_where() {
    let mut w = arena();
    let p = hero(&mut w, 3, 3, 10);
    let potion = lying(&mut w, "Health Potion", 3, 3);
    let g = creature(&mut w, "Goblin", 4, 3, 5, 0, 1);
    let mut index = MapIndexingSystem {};
    index.run(&mut w);
    let here = w.map.xy_idx(3, 3);
    let there = w.map.xy_idx(4, 3);
    let free = w.map.xy_idx(5, 3);
    let wall = w.map.xy_idx(0, 0);
    assert_eq!(w.map.tile_content[here], vec![p, potion]);
    assert_eq!(w.map.tile_content[there], vec![g]);
    assert!(w.map.tile_content[free].is_empty());
    assert!(w.map.blocked[here]);
    assert!(w.map.blocked[there]);
    assert!(!w.map.blocked[free]);
    assert!(w.map.blocked[wall]);
    w.positions.insert(g, at(5, 3));
    index.run(&mut w);
    assert!(w.map.tile_content[there].is_empty());
    assert!(!w.map.blocked[there]);
    assert_eq!(w.map.tile_content[free], vec![g]);
    assert!(w.is_well_formed());
}

#[test]
fn an_item_does_not_block_its_tile() {
    let mut w = arena();
    let _potion = lying(&mut w, "Health Potion", 3, 3);
    let mut index = MapIndexingSystem {};
    index.run(&mut w);
    assert!(!w.map.blocked[w.map.xy_idx(3, 3)]);
}

#[test]
fn sight_shows_what_is_seen_and_remembers_it() {
    let mut w = arena();
    let mut vis = VisibilitySystem {};
    vis.run(&mut w, &Some(vec![at(1, 1), at(2, 1), at(-1, 0), at(10, 10)]));
    let a = w.map.xy_idx(1, 1);
    let b = w.map.xy_idx(2, 1);
    let c = w.map.xy_idx(3, 1);
    assert!(w.map.visible_tiles[a] && w.map.visible_tiles[b] && !w.map.visible_tiles[c]);
    assert!(w.map.revealed_tiles[a] && w.map.revealed_tiles[b] && !w.map.revealed_tiles[c]);
    assert_eq!(w.map.visible_tiles.iter().filter(|v| **v).count(), 2);
    vis.run(&mut w, &Some(vec![at(3, 1)]));
    assert!(!w.map.visible_tiles[a] && !w.map.visible_tiles[b] && w.map.visible_tiles[c]);
    assert!(w.map.revealed_tiles[a] && w.map.revealed_tiles[b] && w.map.revealed_tiles[c]);
    vis.run(&mut w, &None);
    assert!(w.map.visible_tiles[c]);
    assert_eq!(w.map.visible_tiles.iter().filter(|v| **v).count(), 1);
    assert!(w.is_well_formed());
}

// ---------------------------------------------------------------------------
// the hostile creatures
// ---------------------------------------------------------------------------
#[test]
fn a_decision_to_attack_becomes_a_wish_to_fight() {
    let mut w = arena();
    let p = hero(&mut w, 1, 1, 30);
    let g = creature(&mut w, "Goblin", 1, 2, 16, 1, 4);
    let mut ai = MonsterAI {};
    ai.run(&mut w, &vec![Decision::Attack { monster: g, target: p }, Decision::Attack { monster: 50, target: p }]);
    assert_eq!(w.wants_melee.get(g), Some(&WantsToMelee { target: p }));
    assert_eq!(w.wants_melee.len(), 2);
}

#[test]
fn a_decision_to_step_moves_onto_a_free_tile_only() {
    let mut w = arena();
    let _p = hero(&mut w, 1, 1, 30);
    let g = creature(&mut w, "Goblin", 3, 3, 16, 1, 4);
    let mut index = MapIndexingSystem {};
    index.run(&mut w);
    let mut ai = MonsterAI {};
    ai.run(&mut w, &vec![Decision::Approach { monster: g, to: at(3, 2) }]);
    assert_eq!(w.positions.get(g), Some(&at(3, 2)));
    assert!(w.map.blocked[w.map.xy_idx(3, 2)]);
    assert!(!w.map.blocked[w.map.xy_idx(3, 3)]);
    ai.run(&mut w, &vec![Decision::Approach { monster: g, to: at(1, 1) }]);
    assert_eq!(w.positions.get(g), Some(&at(3, 2)));
    ai.run(&mut w, &vec![Decision::Approach { monster: g, to: at(0, 0) }]);
    assert_eq!(w.positions.get(g), Some(&at(3, 2)));
    ai.run(&mut w, &vec![Decision::Approach { monster: g, to: at(3, -1) }]);
    assert_eq!(w.positions.get(g), Some(&at(3, 2)));
    assert!(w.is_well_formed());
}

#[test]
fn a_confused_creature_loses_its_turn_and_comes_round() {
    let mut w = arena();
    let p = hero(&mut w, 1, 1, 30);
    let g = creature(&mut w, "Goblin", 1, 2, 16, 1, 4);
    let scroll = carried(&mut w, "Confusion Scroll", p);
    w.confusion.insert(scroll, Confusion { turns: 4 });
    w.confusion.insert(g, Confusion { turns: 2 });
    let mut ai = MonsterAI {};
    let attack = vec![Decision::Attack { monster: g, target: p }];
    ai.run(&mut w, &attack);
    assert!(!w.wants_melee.has(g));
    assert_eq!(w.confusion.get(g), Some(&Confusion { turns: 1 }));
    ai.run(&mut w, &attack);
    assert!(!w.wants_melee.has(g));
    assert!(!w.confusion.has(g));
    ai.run(&mut w, &attack);
    assert!(w.wants_melee.has(g));
    assert_eq!(w.confusion.get(scroll), Some(&Confusion { turns: 4 }));
}

// ---------------------------------------------------------------------------
// the player's commands
// ---------------------------------------------------------------------------
#[test]
fn without_a_command_the_game_goes_on_waiting() {
    let mut w = arena();
    let p = hero(&mut w, 1, 1, 30);
    assert_eq!(player_input(&mut w, None), RunState::AwaitingInput);
    assert_eq!(w.positions.get(p), Some(&at(1, 1)));
    assert_eq!(player_input(&mut w, Some(Command::Wait)), RunState::PlayerTurn);
    assert_eq!(w.positions.get(p), Some(&at(1, 1)));
}

#[test]
fn a_command_without_a_player_is_not_heeded() {
    let mut w = arena();
    assert_eq!(player_input(&mut w, Some(Command::Wait)), RunState::AwaitingInput);
    assert_eq!(w.count(), 0);
}

#[test]
fn a_step_enters_free_tiles_and_stops_at_walls() {
    let mut w = arena();
    let p = hero(&mut w, 1, 1, 30);
    let mut index = MapIndexingSystem {};
    index.run(&mut w);
    assert_eq!(player_input(&mut w, Some(Command::Move { dx: 1, dy: 0 })), RunState::PlayerTurn);
    assert_eq!(w.positions.get(p), Some(&at(2, 1)));
    assert_eq!(player_input(&mut w, Some(Command::Move { dx: 0, dy: -1 })), RunState::PlayerTurn);
    assert_eq!(w.positions.get(p), Some(&at(2, 1)));
    assert_eq!(player_input(&mut w, Some(Command::Move { dx: -5, dy: 0 })), RunState::PlayerTurn);
    assert_eq!(w.positions.get(p), Some(&at(2, 1)));
    assert_eq!(
        player_input(&mut w, Some(Command::Move { dx: i32::MAX, dy: i32::MIN })),
        RunState::PlayerTurn
    );
    assert_eq!(w.positions.get(p), Some(&at(2, 1)));
    assert!(!w.wants_melee.has(p));
}

#[test]
fn a_step_into_a_creature_is_an_attack() {
    let mut w = arena();
    let p = hero(&mut w, 1, 1, 30);
    let _coin = lying(&mut w, "Coin", 2, 1);
    let g = creature(&mut w, "Goblin", 2, 1, 16, 1, 4);
    let mut index = MapIndexingSystem {};
    index.run(&mut w);
    assert_eq!(player_input(&mut w, Some(Command::Move { dx: 1, dy: 0 })), RunState::PlayerTurn);
    assert_eq!(w.positions.get(p), Some(&at(1, 1)));
    assert_eq!(w.wants_melee.get(p), Some(&WantsToMelee { target: g }));
}

#[test]
fn reaching_finds_the_first_item_here() {
    let mut w = arena();
    let p = hero(&mut w, 4, 4, 30);
    let _elsewhere = lying(&mut w, "Coin", 5, 4);
    let first = lying(&mut w, "Dagger", 4, 4);
    let _second = lying(&mut w, "Shield", 4, 4);
    assert_eq!(player_input(&mut w, Some(Command::Pickup)), RunState::PlayerTurn);
    assert_eq!(w.wants_pickup.get(p), Some(&WantsToPickupItem { collected_by: p, item: first }));
    assert!(w.log.entries.is_empty());
}

#[test]
fn reaching_for_nothing_is_logged() {
    let mut w = arena();
    let p = hero(&mut w, 4, 4, 30);
    let _elsewhere = lying(&mut w, "Coin", 5, 4);
    assert_eq!(player_input(&mut w, Some(Command::Pickup)), RunState::PlayerTurn);
    assert!(!w.wants_pickup.has(p));
    assert_eq!(w.log.entries, vec!["There is nothing here to pick up.".to_string()]);
}

#[test]
fn use_and_drop_commands_become_wishes() {
    let mut w = arena();
    let p = hero(&mut w, 4, 4, 30);
    let potion = carried(&mut w, "Health Potion", p);
    assert_eq!(
        player_input(&mut w, Some(Command::UseItem { item: potion, target: Some(at(1, 2)) })),
        RunState::PlayerTurn
    );
    assert_eq!(w.wants_use.get(p), Some(&WantsToUseItem { item: potion, target: Some(at(1, 2)) }));
    assert_eq!(player_input(&mut w, Some(Command::DropItem { item: potion })), RunState::PlayerTurn);
    assert_eq!(w.wants_drop.get(p), Some(&WantsToDropItem { item: potion }));
}

// ---------------------------------------------------------------------------
// the passes together
// ---------------------------------------------------------------------------
fn snapshot(w: &World) -> Vec<(Option<Position>, Option<CombatStats>, Option<InBackpack>, Option<Equipped>)> {
    (0..w.count())
        .map(|e| {
            (
                w.positions.get(e).copied(),
                w.combat_stats.get(e).copied(),
                w.in_backpack.get(e).copied(),
                w.equipped.get(e).copied(),
            )
        })
        .collect()
}

#[test]
fn a_run_with_nothing_to_resolve_changes_nothing() {
    let mut w = arena();
    let p = hero(&mut w, 1, 1, 30);
    let _g = creature(&mut w, "Goblin", 4, 4, 16, 1, 4);
    let _potion = carried(&mut w, "Health Potion", p);
    let sword = w.create_entity();
    w.equipped.insert(sword, Equipped { owner: p, slot: EquipmentSlot::Melee });
    let _coin = lying(&mut w, "Coin", 6, 6);
    let before = snapshot(&w);
    let mut state = State { ecs: w };
    let senses = Senses { sight: Some(vec![at(1, 1), at(1, 2)]), decisions: Vec::new(), blasts: Vec::new() };
    assert_eq!(state.run_systems(&senses), Ok(()));
    assert_eq!(snapshot(&state.ecs), before);
    assert!(state.ecs.log.entries.is_empty());
    assert_eq!(state.run_systems(&senses), Ok(()));
    assert_eq!(snapshot(&state.ecs), before);
    assert!(state.ecs.map.visible_tiles[state.ecs.map.xy_idx(1, 2)]);
    assert_eq!(state.ecs.map.tile_content[state.ecs.map.xy_idx(6, 6)].len(), 1);
    assert!(state.ecs.is_well_formed());
}

#[test]
fn the_passes_run_in_their_order() {
    let mut w = arena();
    let p = hero(&mut w, 1, 1, 30);
    let g = creature(&mut w, "Goblin", 1, 2, 16, 1, 4);
    let potion = lying(&mut w, "Health Potion", 1, 1);
    w.provides_healing.insert(potion, ProvidesHealing { heal_amount: 8 });
    w.consumable.insert(potion, Consumable {});
    let dagger = carried(&mut w, "Dagger", p);
    w.wants_pickup.insert(p, WantsToPickupItem { collected_by: p, item: potion });
    w.wants_use.insert(p, WantsToUseItem { item: potion, target: None });
    w.wants_drop.insert(p, WantsToDropItem { item: dagger });
    let mut state = State { ecs: w };
    let senses = Senses {
        sight: None,
        decisions: vec![Decision::Attack { monster: g, target: p }],
        blasts: Vec::new(),
    };
    assert_eq!(state.run_systems(&senses), Ok(()));
    let w = &state.ecs;
    assert_eq!(
        w.log.entries,
        vec![
            "Goblin hits Player, for 2 hp.".to_string(),
            "You pick up the Health Potion.".to_string(),
            "You drink the Health Potion, healing 2 hp.".to_string(),
            "You drop the Dagger.".to_string(),
        ]
    );
    assert_eq!(hp_of(w, p), 30);
    assert!(is_gone(w, potion));
    assert_eq!(w.positions.get(dagger), Some(&at(1, 1)));
    assert!(!w.wants_melee.has(g) && !w.wants_pickup.has(p) && !w.wants_use.has(p) && !w.wants_drop.has(p));
    assert!(!w.suffer_damage.has(p));
    assert!(w.is_well_formed());
}

#[test]
fn a_fault_stops_the_run_where_it_happened() {
    let mut w = arena();
    let p = hero(&mut w, 1, 1, 30);
    let g = creature(&mut w, "Goblin", 1, 2, 16, 1, 4);
    let dagger = carried(&mut w, "Dagger", p);
    w.wants_melee.insert(g, WantsToMelee { target: p });
    w.wants_pickup.insert(p, WantsToPickupItem { collected_by: p, item: dagger });
    w.wants_drop.insert(p, WantsToDropItem { item: dagger });
    let mut state = State { ecs: w };
    assert_eq!(state.run_systems(&nothing_sensed()), Err(TurnError::MissingPosition(dagger)));
    assert_eq!(hp_of(&state.ecs, p), 28);
    assert!(state.ecs.wants_drop.has(p));
    assert!(state.ecs.wants_pickup.has(p));
    assert!(!state.ecs.wants_melee.has(g));
    assert!(state.ecs.is_well_formed());
}

#[test]
fn the_turn_goes_round() {
    let mut w = arena();
    let p = hero(&mut w, 1, 1, 30);
    let mut state = State { ecs: w };
    assert_eq!(state.ecs.runstate, RunState::PreRun);
    assert_eq!(state.tick(Some(Command::Move { dx: 1, dy: 0 }), &nothing_sensed()), Ok(()));
    assert_eq!(state.ecs.runstate, RunState::AwaitingInput);
    assert_eq!(state.ecs.positions.get(p), Some(&at(1, 1)));
    assert_eq!(state.tick(None, &nothing_sensed()), Ok(()));
    assert_eq!(state.ecs.runstate, RunState::AwaitingInput);
    assert_eq!(state.tick(Some(Command::Move { dx: 1, dy: 0 }), &nothing_sensed()), Ok(()));
    assert_eq!(state.ecs.runstate, RunState::PlayerTurn);
    assert_eq!(state.ecs.positions.get(p), Some(&at(2, 1)));
    assert_eq!(state.tick(Some(Command::Move { dx: 1, dy: 0 }), &nothing_sensed()), Ok(()));
    assert_eq!(state.ecs.runstate, RunState::MonsterTurn);
    assert_eq!(state.ecs.positions.get(p), Some(&at(2, 1)));
    assert_eq!(state.tick(None, &nothing_sensed()), Ok(()));
    assert_eq!(state.ecs.runstate, RunState::AwaitingInput);
}

#[test]
fn a_tick_removes_the_dead_after_the_passes() {
    let mut w = arena();
    let p = hero(&mut w, 1, 1, 30);
    let g = creature(&mut w, "Goblin", 2, 1, 3, 0, 4);
    let mut state = State { ecs: w };
    assert_eq!(state.tick(None, &nothing_sensed()), Ok(()));
    assert_eq!(state.tick(Some(Command::Move { dx: 1, dy: 0 }), &nothing_sensed()), Ok(()));
    assert_eq!(state.ecs.wants_melee.get(p), Some(&WantsToMelee { target: g }));
    assert_eq!(state.tick(None, &nothing_sensed()), Ok(()));
    assert_eq!(state.ecs.runstate, RunState::MonsterTurn);
    assert!(is_gone(&state.ecs, g));
    assert_eq!(state.ecs.log.entries, vec!["Player hits Goblin, for 5 hp.".to_string()]);
    assert!(state.ecs.is_well_formed());
}

#[test]
fn a_fault_stops_the_tick_and_keeps_the_state() {
    let mut w = arena();
    let p = hero(&mut w, 1, 1, 30);
    w.runstate = RunState::PlayerTurn;
    w.wants_drop.insert(p, WantsToDropItem { item: 40 });
    let mut state = State { ecs: w };
    assert_eq!(state.tick(None, &nothing_sensed()), Err(TurnError::NotInBackpack(40)));
    assert_eq!(state.ecs.runstate, RunState::PlayerTurn);
}

#[test]
fn every_blow_and_what_waited_before_add_up() {
    let mut w = arena();
    let p = hero(&mut w, 4, 4, 40);
    let a = creature(&mut w, "Goblin", 4, 5, 16, 1, 5);
    let b = creature(&mut w, "Orc", 5, 4, 16, 1, 7);
    let c = creature(&mut w, "Bat", 3, 4, 16, 1, 2);
    let d = creature(&mut w, "Rat", 4, 3, 16, 0, 9);
    w.hurt(p, 10);
    w.wants_melee.insert(a, WantsToMelee { target: p });
    w.wants_melee.insert(b, WantsToMelee { target: p });
    w.wants_melee.insert(c, WantsToMelee { target: p });
    w.wants_melee.insert(d, WantsToMelee { target: a });
    w.wants_melee.insert(p, WantsToMelee { target: d });
    let mut melee = MeleeCombatSystem {};
    assert_eq!(melee.run(&mut w), Ok(()));
    assert_eq!(queue_of(&w, p), vec![10, 3, 5]);
    assert_eq!(queue_of(&w, a), vec![8]);
    assert_eq!(queue_of(&w, d), vec![5]);
    assert_eq!(hp_of(&w, p), 40);
    let mut damage = DamageSystem {};
    damage.run(&mut w);
    assert_eq!(hp_of(&w, p), 22);
    assert_eq!(hp_of(&w, a), 8);
    assert_eq!(hp_of(&w, d), 11);
    assert_eq!(hp_of(&w, b), 16);
    assert_eq!(w.log.entries.len(), 3);
}

#[test]
fn a_tick_with_nothing_to_resolve_only_moves_the_state_on() {
    let mut w = arena();
    let p = hero(&mut w, 1, 1, 30);
    let g = creature(&mut w, "Goblin", 4, 4, 16, 1, 4);
    w.runstate = RunState::MonsterTurn;
    let before = snapshot(&w);
    let mut state = State { ecs: w };
    assert_eq!(state.tick(Some(Command::Move { dx: 1, dy: 0 }), &nothing_sensed()), Ok(()));
    assert_eq!(state.ecs.runstate, RunState::AwaitingInput);
    assert_eq!(snapshot(&state.ecs), before);
    assert!(state.ecs.names.has(p) && state.ecs.names.has(g));
    assert!(state.ecs.log.entries.is_empty());
}

#[test]
fn an_item_moved_is_taken_from_where_it_was() {
    let mut w = arena();
    let p = hero(&mut w, 2, 2, 10);
    let ring = lying(&mut w, "Ring", 3, 3);
    w.stow(ring, p);
    assert!(!w.positions.has(ring));
    assert_eq!(w.in_backpack.get(ring), Some(&InBackpack { owner: p }));
    w.lay(ring, at(5, 5));
    assert!(!w.in_backpack.has(ring));
    assert_eq!(w.positions.get(ring), Some(&at(5, 5)));
    w.equipped.insert(ring, Equipped { owner: p, slot: EquipmentSlot::Shield });
    w.positions.remove(ring);
    w.stow(ring, p);
    assert!(!w.equipped.has(ring));
    assert!(w.is_well_formed());
}

#[test]
fn the_store_keeps_names_statistics_confusion_and_the_log() {
    let mut w = arena();
    let e = w.create_entity();
    w.set_name(e, "Shade".to_string());
    assert_eq!(w.name_text(e), "Shade");
    w.set_stats(e, CombatStats { max_hp: 9, hp: 4, defense: 1, power: 2 });
    assert_eq!(hp_of(&w, e), 4);
    w.confuse(e, 3);
    w.confuse(e, 5);
    assert_eq!(w.confusion.get(e), Some(&Confusion { turns: 5 }));
    w.say("first".to_string());
    w.say("second".to_string());
    assert_eq!(w.log.entries, vec!["first".to_string(), "second".to_string()]);
    w.hurt(e, 2);
    w.hurt(e, -7);
    assert_eq!(queue_of(&w, e), vec![2, -7]);
    assert!(w.is_well_formed());
}

#[test]
fn a_nameless_item_that_misses_is_no_fault_and_is_used_up() {
    let mut w = arena();
    let p = hero(&mut w, 1, 1, 10);
    let thing = w.create_entity();
    w.in_backpack.insert(thing, InBackpack { owner: p });
    w.inflicts_damage.insert(thing, InflictsDamage { damage: 8 });
    w.provides_healing.insert(thing, ProvidesHealing { heal_amount: 3 });
    w.consumable.insert(thing, Consumable {});
    let mut index = MapIndexingSystem {};
    index.run(&mut w);
    w.wants_use.insert(p, WantsToUseItem { item: thing, target: Some(at(5, 5)) });
    let mut pass = ItemUseSystem {};
    assert_eq!(pass.run(&mut w, &Vec::new()), Ok(()));
    assert!(is_gone(&w, thing));
    assert!(w.log.entries.is_empty());
    assert!(!w.wants_use.has(p));
}

#[test]
fn a_nameless_item_that_heals_nobody_is_no_fault() {
    let mut w = arena();
    let p = hero(&mut w, 1, 1, 10);
    let _rock = lying(&mut w, "Rock", 4, 4);
    let thing = w.create_entity();
    w.in_backpack.insert(thing, InBackpack { owner: p });
    w.provides_healing.insert(thing, ProvidesHealing { heal_amount: 3 });
    let mut index = MapIndexingSystem {};
    index.run(&mut w);
    w.wants_use.insert(p, WantsToUseItem { item: thing, target: Some(at(4, 4)) });
    let mut pass = ItemUseSystem {};
    assert_eq!(pass.run(&mut w, &Vec::new()), Ok(()));
    assert!(w.log.entries.is_empty());
    w.wants_use.insert(p, WantsToUseItem { item: thing, target: Some(at(1, 1)) });
    assert_eq!(pass.run(&mut w, &Vec::new()), Err(TurnError::MissingName(thing)));
}

#[test]
fn two_blows_that_kill_together_kill_within_the_tick() {
    let mut w = arena();
    let _hero = hero(&mut w, 8, 8, 30);
    let victim = creature(&mut w, "Orc", 4, 4, 5, 0, 1);
    let first = creature(&mut w, "Goblin", 4, 5, 16, 1, 3);
    let second = creature(&mut w, "Bat", 5, 4, 16, 1, 4);
    w.wants_melee.insert(first, WantsToMelee { target: victim });
    w.wants_melee.insert(second, WantsToMelee { target: victim });
    w.runstate = RunState::PlayerTurn;
    let mut state = State { ecs: w };
    assert_eq!(state.tick(None, &nothing_sensed()), Ok(()));
    assert!(is_gone(&state.ecs, victim));
    assert_eq!(hp_of(&state.ecs, first), 16);
    assert_eq!(hp_of(&state.ecs, second), 16);
    assert!(state.ecs.names.has(first) && state.ecs.names.has(second));
    assert_eq!(state.ecs.runstate, RunState::MonsterTurn);
    assert!(state.ecs.log.entries.is_empty());
    assert!(state.ecs.is_well_formed());
}

#[test]
fn one_blow_of_the_two_alone_would_not_kill() {
    let mut w = arena();
    let _hero = hero(&mut w, 8, 8, 30);
    let victim = creature(&mut w, "Orc", 4, 4, 5, 0, 1);
    let second = creature(&mut w, "Bat", 5, 4, 16, 1, 4);
    w.wants_melee.insert(second, WantsToMelee { target: victim });
    w.runstate = RunState::MonsterTurn;
    let mut state = State { ecs: w };
    assert_eq!(state.tick(None, &nothing_sensed()), Ok(()));
    assert_eq!(hp_of(&state.ecs, victim), 1);
    assert_eq!(state.ecs.runstate, RunState::AwaitingInput);
}

#[test]
fn every_pickup_of_a_pass_is_carried_out() {
    let mut w = arena();
    let p = hero(&mut w, 3, 3, 10);
    let g = creature(&mut w, "Goblin", 4, 4, 5, 0, 1);
    let coin = lying(&mut w, "Coin", 3, 3);
    let ring = lying(&mut w, "Ring", 4, 4);
    w.wants_pickup.insert(p, WantsToPickupItem { collected_by: p, item: coin });
    w.wants_pickup.insert(g, WantsToPickupItem { collected_by: p, item: ring });
    let mut pass = ItemCollectionSystem {};
    assert_eq!(pass.run(&mut w), Ok(()));
    for item in [coin, ring] {
        assert!(!w.positions.has(item) && !w.equipped.has(item));
        assert_eq!(w.in_backpack.get(item), Some(&InBackpack { owner: p }));
    }
    assert_eq!(w.log.entries.len(), 2);
    assert!(w.is_well_formed());
}
