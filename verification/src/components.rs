//! The attributes an entity may carry.
use vstd::prelude::*;

verus! {

/// An entity is nothing but its identifier: the row it owns in every table.
pub type Entity = usize;

/// The map tile an entity stands on.
#[derive(PartialEq, Eq, Structural, Clone, Copy, Debug)]
pub struct Position {
    pub x: i32,
    pub y: i32,
}

/// What the log calls an entity.
#[derive(Debug)]
pub struct Name {
    pub name: String,
}

/// How much a creature can take and deal.
#[derive(PartialEq, Eq, Structural, Clone, Copy, Debug)]
pub struct CombatStats {
    pub max_hp: i32,
    pub hp: i32,
    pub defense: i32,
    pub power: i32,
}

/// Marks an entity that can be picked up.
#[derive(PartialEq, Eq, Structural, Clone, Copy, Debug)]
pub struct Item {}

/// Marks an entity that nobody else may walk into.
#[derive(PartialEq, Eq, Structural, Clone, Copy, Debug)]
pub struct BlocksTile {}

/// Where on its owner an item is worn.
#[derive(PartialEq, Eq, Structural, Clone, Copy, Debug)]
pub enum EquipmentSlot {
    Melee,
    Shield,
}

/// The item lies in its owner's backpack.
#[derive(PartialEq, Eq, Structural, Clone, Copy, Debug)]
pub struct InBackpack {
    pub owner: Entity,
}

/// The item is worn or wielded by its owner.
#[derive(PartialEq, Eq, Structural, Clone, Copy, Debug)]
pub struct Equipped {
    pub owner: Entity,
    pub slot: EquipmentSlot,
}

/// The item can be worn or wielded in the given slot.
#[derive(PartialEq, Eq, Structural, Clone, Copy, Debug)]
pub struct Equippable {
    pub slot: EquipmentSlot,
}

/// The item is used up by its first use.
#[derive(PartialEq, Eq, Structural, Clone, Copy, Debug)]
pub struct Consumable {}

/// The item heals whom it is used on.
#[derive(PartialEq, Eq, Structural, Clone, Copy, Debug)]
pub struct ProvidesHealing {
    pub heal_amount: i32,
}

/// The item damages whom it is used on.
#[derive(PartialEq, Eq, Structural, Clone, Copy, Debug)]
pub struct InflictsDamage {
    pub damage: i32,
}

/// The item reaches every tile seen from its target within this radius.
#[derive(PartialEq, Eq, Structural, Clone, Copy, Debug)]
pub struct AreaOfEffect {
    pub radius: i32,
}

/// On an item: the turns of confusion it inflicts. On a creature: the turns
/// of confusion it has left.
#[derive(PartialEq, Eq, Structural, Clone, Copy, Debug)]
pub struct Confusion {
    pub turns: i32,
}

/// The holder wants the item to go into the collector's backpack.
#[derive(PartialEq, Eq, Structural, Clone, Copy, Debug)]
pub struct WantsToPickupItem {
    pub collected_by: Entity,
    pub item: Entity,
}

/// The holder wants to use the item, on a tile or on itself.
#[derive(PartialEq, Eq, Structural, Clone, Copy, Debug)]
pub struct WantsToUseItem {
    pub item: Entity,
    pub target: Option<Position>,
}

/// The holder wants to lay the item down where it stands.
#[derive(PartialEq, Eq, Structural, Clone, Copy, Debug)]
pub struct WantsToDropItem {
    pub item: Entity,
}

/// The holder wants to strike the target.
#[derive(PartialEq, Eq, Structural, Clone, Copy, Debug)]
pub struct WantsToMelee {
    pub target: Entity,
}

/// Damage waiting to be taken off an entity's hit points, oldest first.
#[derive(Debug)]
pub struct SufferDamage {
    pub amount: Vec<i32>,
}

/// Why a pass of the turn gave up: an entity lacks what the pass counts on.
#[derive(PartialEq, Eq, Structural, Clone, Copy, Debug)]
pub enum TurnError {
    /// The entity has to be named in the log and has no name.
    MissingName(Entity),
    /// The entity has to be on the map and is not.
    MissingPosition(Entity),
    /// The entity has to fight and has no combat statistics.
    MissingStats(Entity),
    /// The item has to be in the backpack of the one who drops it and is not.
    NotInBackpack(Entity),
}

} // verus!
