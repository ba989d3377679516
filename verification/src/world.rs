//! The entity store: every attribute table, the map, the log and the turn
//! state, held in one value that each pass receives.
use vstd::prelude::*;
use crate::components::{
    AreaOfEffect, BlocksTile, CombatStats, Confusion, Consumable, Entity, Equippable, Equipped,
    EquipmentSlot, InBackpack, InflictsDamage, Item, Name, Position, ProvidesHealing, SufferDamage,
    TurnError,
    WantsToDropItem, WantsToMelee, WantsToPickupItem, WantsToUseItem,
};
use crate::gamelog::Gamelog;
use crate::map::{TileMap, TileMapView};
use crate::storage::{lookup, Storage};
use crate::RunState;

verus! {

/// The state of the game. Row `e` of every table belongs to entity `e`.
pub struct World {
    pub positions: Storage<Position>,
    pub names: Storage<Name>,
    pub combat_stats: Storage<CombatStats>,
    pub in_backpack: Storage<InBackpack>,
    pub equipped: Storage<Equipped>,
    pub provides_healing: Storage<ProvidesHealing>,
    pub inflicts_damage: Storage<InflictsDamage>,
    pub area_of_effect: Storage<AreaOfEffect>,
    pub confusion: Storage<Confusion>,
    pub consumable: Storage<Consumable>,
    pub equippable: Storage<Equippable>,
    pub blocks_tile: Storage<BlocksTile>,
    pub items: Storage<Item>,
    pub wants_pickup: Storage<WantsToPickupItem>,
    pub wants_use: Storage<WantsToUseItem>,
    pub wants_drop: Storage<WantsToDropItem>,
    pub wants_melee: Storage<WantsToMelee>,
    pub suffer_damage: Storage<SufferDamage>,
    pub player: Entity,
    pub map: TileMap,
    pub log: Gamelog,
    pub runstate: RunState,
}

/// What a [`World`] holds, as mathematical values.
pub struct WorldView {
    pub positions: Seq<Option<Position>>,
    pub names: Seq<Option<Seq<char>>>,
    pub combat_stats: Seq<Option<CombatStats>>,
    pub in_backpack: Seq<Option<InBackpack>>,
    pub equipped: Seq<Option<Equipped>>,
    pub provides_healing: Seq<Option<ProvidesHealing>>,
    pub inflicts_damage: Seq<Option<InflictsDamage>>,
    pub area_of_effect: Seq<Option<AreaOfEffect>>,
    pub confusion: Seq<Option<Confusion>>,
    pub consumable: Seq<Option<Consumable>>,
    pub equippable: Seq<Option<Equippable>>,
    pub blocks_tile: Seq<Option<BlocksTile>>,
    pub items: Seq<Option<Item>>,
    pub wants_pickup: Seq<Option<WantsToPickupItem>>,
    pub wants_use: Seq<Option<WantsToUseItem>>,
    pub wants_drop: Seq<Option<WantsToDropItem>>,
    pub wants_melee: Seq<Option<WantsToMelee>>,
    pub suffer_damage: Seq<Option<Seq<i32>>>,
    pub player: Entity,
    pub map: TileMapView,
    pub log: Seq<Seq<char>>,
    pub runstate: RunState,
}

/// How far a pass of the turn got: the world it left, and what stopped it, if
/// anything did.
pub struct Resolution {
    pub world: WorldView,
    pub fault: Option<TurnError>,
}

/// The text in one row of the name table.
pub open spec fn named(row: Option<Name>) -> Option<Seq<char>> {
    match row {
        Some(name) => Some(name.name@),
        None => None,
    }
}

/// The amounts that wait in one row of the damage table.
pub open spec fn queued(row: Option<SufferDamage>) -> Option<Seq<i32>> {
    match row {
        Some(pending) => Some(pending.amount@),
        None => None,
    }
}

/// Hit points kept between nothing and the most the creature can have.
pub open spec fn clamp_hp(hp: int, max_hp: int) -> int {
    if hp <= 0 {
        0
    } else if hp >= max_hp {
        max_hp
    } else {
        hp
    }
}

impl WorldView {
    /// The number of entities the tables have a row for.
    pub open spec fn count(self) -> nat {
        self.positions.len()
    }

    /// Every table has one row for each entity.
    pub open spec fn aligned(self) -> bool {
        &&& self.names.len() == self.count()
        &&& self.combat_stats.len() == self.count()
        &&& self.in_backpack.len() == self.count()
        &&& self.equipped.len() == self.count()
        &&& self.provides_healing.len() == self.count()
        &&& self.inflicts_damage.len() == self.count()
        &&& self.area_of_effect.len() == self.count()
        &&& self.confusion.len() == self.count()
        &&& self.consumable.len() == self.count()
        &&& self.equippable.len() == self.count()
        &&& self.blocks_tile.len() == self.count()
        &&& self.items.len() == self.count()
        &&& self.wants_pickup.len() == self.count()
        &&& self.wants_use.len() == self.count()
        &&& self.wants_drop.len() == self.count()
        &&& self.wants_melee.len() == self.count()
        &&& self.suffer_damage.len() == self.count()
    }

    /// In how many places entity `e` is at once: on the map, in a backpack, worn.
    pub open spec fn places(self, e: int) -> int {
        (if self.positions[e].is_some() {
            1int
        } else {
            0int
        }) + (if self.in_backpack[e].is_some() {
            1int
        } else {
            0int
        }) + (if self.equipped[e].is_some() {
            1int
        } else {
            0int
        })
    }

    /// No entity is in two places at once.
    pub open spec fn one_place_each(self) -> bool {
        forall|e: int| 0 <= e < self.count() ==> #[trigger] self.places(e) <= 1
    }

    /// Whether `e` is worn by `owner` in `slot`.
    pub open spec fn worn(self, e: int, owner: Entity, slot: EquipmentSlot) -> bool {
        0 <= e < self.equipped.len() && self.equipped[e] == Some(Equipped { owner, slot })
    }

    /// Nobody wears two items in one slot.
    pub open spec fn one_item_per_slot(self) -> bool {
        forall|a: int, b: int, owner: Entity, slot: EquipmentSlot|
            #[trigger] self.worn(a, owner, slot) && #[trigger] self.worn(b, owner, slot) ==> a == b
    }

    /// Whoever is on the map is on one of its tiles.
    pub open spec fn on_the_map(self) -> bool {
        forall|e: int|
            0 <= e < self.count() ==> match #[trigger] self.positions[e] {
                Some(at) => self.map.in_bounds(at.x as int, at.y as int),
                None => true,
            }
    }

    /// Hit points stay between nothing and the most the creature can have.
    pub open spec fn hp_in_range(self) -> bool {
        forall|e: int|
            0 <= e < self.count() ==> match #[trigger] self.combat_stats[e] {
                Some(stats) => 0 <= stats.hp <= stats.max_hp,
                None => true,
            }
    }

    /// The occupancy index names only entities that the tables have a row for.
    pub open spec fn indexed_within(self) -> bool {
        forall|i: int, k: int|
            0 <= i < self.map.tile_content.len() && 0 <= k < self.map.tile_content[i].len()
                ==> #[trigger] self.map.tile_content[i][k] < self.count()
    }

    /// Whether `e` has no attribute at all: the entity is gone.
    pub open spec fn gone(self, e: int) -> bool {
        &&& self.positions[e].is_none()
        &&& self.names[e].is_none()
        &&& self.combat_stats[e].is_none()
        &&& self.in_backpack[e].is_none()
        &&& self.equipped[e].is_none()
        &&& self.provides_healing[e].is_none()
        &&& self.inflicts_damage[e].is_none()
        &&& self.area_of_effect[e].is_none()
        &&& self.confusion[e].is_none()
        &&& self.consumable[e].is_none()
        &&& self.equippable[e].is_none()
        &&& self.blocks_tile[e].is_none()
        &&& self.items[e].is_none()
        &&& self.wants_pickup[e].is_none()
        &&& self.wants_use[e].is_none()
        &&& self.wants_drop[e].is_none()
        &&& self.wants_melee[e].is_none()
        &&& self.suffer_damage[e].is_none()
    }

    /// Whether `e` has in this world the attributes that it has in `other`.
    pub open spec fn same_row(self, other: WorldView, e: int) -> bool {
        &&& self.positions[e] == other.positions[e]
        &&& self.names[e] == other.names[e]
        &&& self.combat_stats[e] == other.combat_stats[e]
        &&& self.in_backpack[e] == other.in_backpack[e]
        &&& self.equipped[e] == other.equipped[e]
        &&& self.provides_healing[e] == other.provides_healing[e]
        &&& self.inflicts_damage[e] == other.inflicts_damage[e]
        &&& self.area_of_effect[e] == other.area_of_effect[e]
        &&& self.confusion[e] == other.confusion[e]
        &&& self.consumable[e] == other.consumable[e]
        &&& self.equippable[e] == other.equippable[e]
        &&& self.blocks_tile[e] == other.blocks_tile[e]
        &&& self.items[e] == other.items[e]
        &&& self.wants_pickup[e] == other.wants_pickup[e]
        &&& self.wants_use[e] == other.wants_use[e]
        &&& self.wants_drop[e] == other.wants_drop[e]
        &&& self.wants_melee[e] == other.wants_melee[e]
        &&& self.suffer_damage[e] == other.suffer_damage[e]
    }

    /// Nobody wants anything and no damage waits: the passes have nothing
    /// to resolve.
    pub open spec fn at_rest(self) -> bool {
        &&& forall|e: int| 0 <= e < self.count() ==> (#[trigger] self.wants_pickup[e]).is_none()
        &&& forall|e: int| 0 <= e < self.count() ==> (#[trigger] self.wants_use[e]).is_none()
        &&& forall|e: int| 0 <= e < self.count() ==> (#[trigger] self.wants_drop[e]).is_none()
        &&& forall|e: int| 0 <= e < self.count() ==> (#[trigger] self.wants_melee[e]).is_none()
        &&& forall|e: int| 0 <= e < self.count() ==> (#[trigger] self.suffer_damage[e]).is_none()
    }

    /// What holds of the world between any two steps of the game.
    pub open spec fn wf(self) -> bool {
        &&& self.aligned()
        &&& self.map.wf()
        &&& self.one_place_each()
        &&& self.one_item_per_slot()
        &&& self.on_the_map()
        &&& self.hp_in_range()
        &&& self.indexed_within()
    }

    /// The name of `e` as the log writes it.
    pub open spec fn name_of(self, e: Entity) -> Seq<char> {
        match lookup(self.names, e) {
            Some(text) => text,
            None => Seq::empty(),
        }
    }

    /// Whether `e` has no name.
    pub open spec fn nameless(self, e: Entity) -> bool {
        lookup(self.names, e).is_none()
    }

    /// The damage that waits for `e`, oldest first.
    pub open spec fn queue_of(self, e: Entity) -> Seq<i32> {
        match lookup(self.suffer_damage, e) {
            Some(amounts) => amounts,
            None => Seq::empty(),
        }
    }

    /// The world with one more entity, which has no attribute yet.
    pub open spec fn with_new_entity(self) -> WorldView {
        WorldView {
            positions: self.positions.push(None),
            names: self.names.push(None),
            combat_stats: self.combat_stats.push(None),
            in_backpack: self.in_backpack.push(None),
            equipped: self.equipped.push(None),
            provides_healing: self.provides_healing.push(None),
            inflicts_damage: self.inflicts_damage.push(None),
            area_of_effect: self.area_of_effect.push(None),
            confusion: self.confusion.push(None),
            consumable: self.consumable.push(None),
            equippable: self.equippable.push(None),
            blocks_tile: self.blocks_tile.push(None),
            items: self.items.push(None),
            wants_pickup: self.wants_pickup.push(None),
            wants_use: self.wants_use.push(None),
            wants_drop: self.wants_drop.push(None),
            wants_melee: self.wants_melee.push(None),
            suffer_damage: self.suffer_damage.push(None),
            ..self
        }
    }

    /// The world after `e` has lost every attribute: the entity is gone.
    pub open spec fn without(self, e: Entity) -> WorldView {
        WorldView {
            positions: self.positions.update(e as int, None),
            names: self.names.update(e as int, None),
            combat_stats: self.combat_stats.update(e as int, None),
            in_backpack: self.in_backpack.update(e as int, None),
            equipped: self.equipped.update(e as int, None),
            provides_healing: self.provides_healing.update(e as int, None),
            inflicts_damage: self.inflicts_damage.update(e as int, None),
            area_of_effect: self.area_of_effect.update(e as int, None),
            confusion: self.confusion.update(e as int, None),
            consumable: self.consumable.update(e as int, None),
            equippable: self.equippable.update(e as int, None),
            blocks_tile: self.blocks_tile.update(e as int, None),
            items: self.items.update(e as int, None),
            wants_pickup: self.wants_pickup.update(e as int, None),
            wants_use: self.wants_use.update(e as int, None),
            wants_drop: self.wants_drop.update(e as int, None),
            wants_melee: self.wants_melee.update(e as int, None),
            suffer_damage: self.suffer_damage.update(e as int, None),
            ..self
        }
    }

    /// The world with one more line at the end of the log.
    pub open spec fn say(self, line: Seq<char>) -> WorldView {
        WorldView { log: self.log.push(line), ..self }
    }

    /// The world with the line logged if `loud`, unchanged otherwise.
    pub open spec fn say_if(self, loud: bool, line: Seq<char>) -> WorldView {
        if loud {
            self.say(line)
        } else {
            self
        }
    }

    /// The world with `item` in the backpack of `owner` and nowhere else.
    pub open spec fn stow(self, item: Entity, owner: Entity) -> WorldView {
        WorldView {
            positions: self.positions.update(item as int, None),
            equipped: self.equipped.update(item as int, None),
            in_backpack: self.in_backpack.update(item as int, Some(InBackpack { owner })),
            ..self
        }
    }

    /// The world with `item` worn by `owner` in `slot` and nowhere else.
    pub open spec fn wield(self, item: Entity, owner: Entity, slot: EquipmentSlot) -> WorldView {
        WorldView {
            positions: self.positions.update(item as int, None),
            in_backpack: self.in_backpack.update(item as int, None),
            equipped: self.equipped.update(item as int, Some(Equipped { owner, slot })),
            ..self
        }
    }

    /// The world with `item` on the map at `at` and nowhere else.
    pub open spec fn lay(self, item: Entity, at: Position) -> WorldView {
        WorldView {
            in_backpack: self.in_backpack.update(item as int, None),
            equipped: self.equipped.update(item as int, None),
            positions: self.positions.update(item as int, Some(at)),
            ..self
        }
    }

    /// The world with `amount` more damage waiting for `target`.
    pub open spec fn hurt(self, target: Entity, amount: i32) -> WorldView {
        WorldView {
            suffer_damage: self.suffer_damage.update(
                target as int,
                Some(self.queue_of(target).push(amount)),
            ),
            ..self
        }
    }

    /// The world with `e` called `text`.
    pub open spec fn with_name(self, e: Entity, text: Seq<char>) -> WorldView {
        WorldView { names: self.names.update(e as int, Some(text)), ..self }
    }

    /// The world with the statistics of `e` replaced.
    pub open spec fn with_stats(self, e: Entity, stats: CombatStats) -> WorldView {
        WorldView { combat_stats: self.combat_stats.update(e as int, Some(stats)), ..self }
    }

    /// The world with `e` confused for `turns` turns, whatever it was before.
    pub open spec fn confuse(self, e: Entity, turns: i32) -> WorldView {
        WorldView { confusion: self.confusion.update(e as int, Some(Confusion { turns })), ..self }
    }
}

/// In a world that is in order nothing is in two places: whatever lies on
/// the map is in no backpack and worn by nobody, and whatever is in a
/// backpack is worn by nobody.
pub proof fn lemma_one_place(w: WorldView, e: Entity)
    requires
        w.wf(),
    ensures
        lookup(w.positions, e).is_some() ==> lookup(w.in_backpack, e).is_none() && lookup(
            w.equipped,
            e,
        ).is_none(),
        lookup(w.in_backpack, e).is_some() ==> lookup(w.equipped, e).is_none(),
{
    if e < w.count() {
        assert(w.places(e as int) <= 1);
    }
}

/// A new entity starts with no attribute, so it disturbs nothing.
pub proof fn lemma_new_entity_wf(w: WorldView)
    requires
        w.wf(),
    ensures
        w.with_new_entity().wf(),
{
    let v = w.with_new_entity();
    assert forall|e: int| 0 <= e < v.count() implies #[trigger] v.places(e) <= 1 by {
        if e < w.count() {
            assert(w.places(e) <= 1);
        }
    }
    assert forall|a: int, b: int, owner: Entity, slot: EquipmentSlot|
        #[trigger] v.worn(a, owner, slot) && #[trigger] v.worn(b, owner, slot) implies a == b by {
        assert(w.worn(a, owner, slot) && w.worn(b, owner, slot));
    }
    assert forall|e: int| 0 <= e < v.count() implies match #[trigger] v.positions[e] {
        Some(at) => v.map.in_bounds(at.x as int, at.y as int),
        None => true,
    } by {
        if e < w.count() {
            assert(v.positions[e] == w.positions[e]);
        }
    }
    assert forall|e: int| 0 <= e < v.count() implies match #[trigger] v.combat_stats[e] {
        Some(stats) => 0 <= stats.hp <= stats.max_hp,
        None => true,
    } by {
        if e < w.count() {
            assert(v.combat_stats[e] == w.combat_stats[e]);
        }
    }
}

/// Removing an entity cannot break what holds of the others.
pub proof fn lemma_without_wf(w: WorldView, gone: Entity)
    requires
        w.wf(),
        gone < w.count(),
    ensures
        w.without(gone).wf(),
{
    let v = w.without(gone);
    assert forall|e: int| 0 <= e < v.count() implies #[trigger] v.places(e) <= 1 by {
        assert(w.places(e) <= 1);
    }
    assert forall|a: int, b: int, owner: Entity, slot: EquipmentSlot|
        #[trigger] v.worn(a, owner, slot) && #[trigger] v.worn(b, owner, slot) implies a == b by {
        assert(w.worn(a, owner, slot) && w.worn(b, owner, slot));
    }
    assert forall|e: int| 0 <= e < v.count() implies match #[trigger] v.positions[e] {
        Some(at) => v.map.in_bounds(at.x as int, at.y as int),
        None => true,
    } by {
        if e != gone {
            assert(v.positions[e] == w.positions[e]);
        }
    }
    assert forall|e: int| 0 <= e < v.count() implies match #[trigger] v.combat_stats[e] {
        Some(stats) => 0 <= stats.hp <= stats.max_hp,
        None => true,
    } by {
        if e != gone {
            assert(v.combat_stats[e] == w.combat_stats[e]);
        }
    }
}

/// An item put in a backpack is taken from wherever else it was.
pub proof fn lemma_stow_wf(w: WorldView, item: Entity, owner: Entity)
    requires
        w.wf(),
        item < w.count(),
    ensures
        w.stow(item, owner).wf(),
{
    let v = w.stow(item, owner);
    assert forall|e: int| 0 <= e < v.count() implies #[trigger] v.places(e) <= 1 by {
        assert(w.places(e) <= 1);
    }
    assert forall|a: int, b: int, o: Entity, slot: EquipmentSlot|
        #[trigger] v.worn(a, o, slot) && #[trigger] v.worn(b, o, slot) implies a == b by {
        assert(w.worn(a, o, slot) && w.worn(b, o, slot));
    }
    assert forall|e: int| 0 <= e < v.count() implies match #[trigger] v.positions[e] {
        Some(at) => v.map.in_bounds(at.x as int, at.y as int),
        None => true,
    } by {
        if e != item {
            assert(v.positions[e] == w.positions[e]);
        }
    }
}

/// An item laid on a tile of the map is taken from wherever else it was.
pub proof fn lemma_lay_wf(w: WorldView, item: Entity, at: Position)
    requires
        w.wf(),
        item < w.count(),
        w.map.in_bounds(at.x as int, at.y as int),
    ensures
        w.lay(item, at).wf(),
{
    let v = w.lay(item, at);
    assert forall|e: int| 0 <= e < v.count() implies #[trigger] v.places(e) <= 1 by {
        assert(w.places(e) <= 1);
    }
    assert forall|a: int, b: int, o: Entity, slot: EquipmentSlot|
        #[trigger] v.worn(a, o, slot) && #[trigger] v.worn(b, o, slot) implies a == b by {
        assert(w.worn(a, o, slot) && w.worn(b, o, slot));
    }
    assert forall|e: int| 0 <= e < v.count() implies match #[trigger] v.positions[e] {
        Some(at) => v.map.in_bounds(at.x as int, at.y as int),
        None => true,
    } by {
        if e != item {
            assert(v.positions[e] == w.positions[e]);
        }
    }
}

/// An item may be put in a slot that its owner has free.
pub proof fn lemma_wield_wf(w: WorldView, item: Entity, owner: Entity, slot: EquipmentSlot)
    requires
        w.wf(),
        item < w.count(),
        forall|e: int| !w.worn(e, owner, slot),
    ensures
        w.wield(item, owner, slot).wf(),
{
    let v = w.wield(item, owner, slot);
    assert forall|e: int| 0 <= e < v.count() implies #[trigger] v.places(e) <= 1 by {
        assert(w.places(e) <= 1);
    }
    assert forall|a: int, b: int, o: Entity, s: EquipmentSlot|
        #[trigger] v.worn(a, o, s) && #[trigger] v.worn(b, o, s) implies a == b by {
        if a != item && b != item {
            assert(w.worn(a, o, s) && w.worn(b, o, s));
        } else if a != item {
            assert(w.worn(a, o, s));
        } else if b != item {
            assert(w.worn(b, o, s));
        }
    }
    assert forall|e: int| 0 <= e < v.count() implies match #[trigger] v.positions[e] {
        Some(at) => v.map.in_bounds(at.x as int, at.y as int),
        None => true,
    } by {
        if e != item {
            assert(v.positions[e] == w.positions[e]);
        }
    }
}

/// New statistics keep the world in order if the hit points are in range.
pub proof fn lemma_with_stats_wf(w: WorldView, e: Entity, stats: CombatStats)
    requires
        w.wf(),
        e < w.count(),
        0 <= stats.hp <= stats.max_hp,
    ensures
        w.with_stats(e, stats).wf(),
{
    let v = w.with_stats(e, stats);
    assert forall|x: int| 0 <= x < v.count() implies #[trigger] v.places(x) <= 1 by {
        assert(w.places(x) <= 1);
    }
    assert forall|a: int, b: int, o: Entity, s: EquipmentSlot|
        #[trigger] v.worn(a, o, s) && #[trigger] v.worn(b, o, s) implies a == b by {
        assert(w.worn(a, o, s) && w.worn(b, o, s));
    }
    assert forall|x: int| 0 <= x < v.count() implies match #[trigger] v.combat_stats[x] {
        Some(stats) => 0 <= stats.hp <= stats.max_hp,
        None => true,
    } by {
        if x != e {
            assert(v.combat_stats[x] == w.combat_stats[x]);
        }
    }
}

/// Changes to the log, the turn state, the player, the names, the pending
/// intents, the damage queues, the confusion table and what items do touch
/// nothing that the order of the world depends on.
pub proof fn lemma_side_tables_wf(w: WorldView, v: WorldView)
    requires
        w.wf(),
        v.aligned(),
        v == (WorldView {
            log: v.log,
            runstate: v.runstate,
            player: v.player,
            names: v.names,
            items: v.items,
            blocks_tile: v.blocks_tile,
            consumable: v.consumable,
            equippable: v.equippable,
            provides_healing: v.provides_healing,
            inflicts_damage: v.inflicts_damage,
            area_of_effect: v.area_of_effect,
            suffer_damage: v.suffer_damage,
            confusion: v.confusion,
            wants_pickup: v.wants_pickup,
            wants_use: v.wants_use,
            wants_drop: v.wants_drop,
            wants_melee: v.wants_melee,
            ..w
        }),
    ensures
        v.wf(),
{
    assert forall|e: int| 0 <= e < v.count() implies #[trigger] v.places(e) <= 1 by {
        assert(w.places(e) <= 1);
    }
    assert forall|a: int, b: int, o: Entity, s: EquipmentSlot|
        #[trigger] v.worn(a, o, s) && #[trigger] v.worn(b, o, s) implies a == b by {
        assert(w.worn(a, o, s) && w.worn(b, o, s));
    }
}

/// A step onto a tile of the map keeps the world in order.
pub proof fn lemma_step_wf(w: WorldView, v: WorldView, mover: Entity, to: Position)
    requires
        w.wf(),
        mover < w.count(),
        w.positions[mover as int].is_some(),
        w.map.in_bounds(to.x as int, to.y as int),
        v.map.blocked.len() == w.map.blocked.len(),
        v == (WorldView {
            positions: w.positions.update(mover as int, Some(to)),
            map: TileMapView { blocked: v.map.blocked, ..w.map },
            ..w
        }),
    ensures
        v.wf(),
{
    assert forall|e: int| 0 <= e < v.count() implies #[trigger] v.places(e) <= 1 by {
        assert(w.places(e) <= 1);
    }
    assert forall|a: int, b: int, o: Entity, s: EquipmentSlot|
        #[trigger] v.worn(a, o, s) && #[trigger] v.worn(b, o, s) implies a == b by {
        assert(w.worn(a, o, s) && w.worn(b, o, s));
    }
    assert forall|e: int| 0 <= e < v.count() implies match #[trigger] v.positions[e] {
        Some(at) => v.map.in_bounds(at.x as int, at.y as int),
        None => true,
    } by {
        if e != mover {
            assert(v.positions[e] == w.positions[e]);
        }
    }
}

/// Changes to what the map records of sight and of occupancy keep the world
/// in order, so long as the occupancy index names only known entities.
pub proof fn lemma_recorded_wf(w: WorldView, v: WorldView)
    requires
        w.wf(),
        v.map.wf(),
        v.indexed_within(),
        v == (WorldView {
            map: TileMapView {
                blocked: v.map.blocked,
                tile_content: v.map.tile_content,
                visible: v.map.visible,
                revealed: v.map.revealed,
                ..w.map
            },
            ..w
        }),
    ensures
        v.wf(),
{
    assert forall|e: int| 0 <= e < v.count() implies #[trigger] v.places(e) <= 1 by {
        assert(w.places(e) <= 1);
    }
    assert forall|a: int, b: int, o: Entity, s: EquipmentSlot|
        #[trigger] v.worn(a, o, s) && #[trigger] v.worn(b, o, s) implies a == b by {
        assert(w.worn(a, o, s) && w.worn(b, o, s));
    }
}

impl View for World {
    type V = WorldView;

    open spec fn view(&self) -> WorldView {
        WorldView {
            positions: self.positions@,
            names: self.names@.map_values(|row: Option<Name>| named(row)),
            combat_stats: self.combat_stats@,
            in_backpack: self.in_backpack@,
            equipped: self.equipped@,
            provides_healing: self.provides_healing@,
            inflicts_damage: self.inflicts_damage@,
            area_of_effect: self.area_of_effect@,
            confusion: self.confusion@,
            consumable: self.consumable@,
            equippable: self.equippable@,
            blocks_tile: self.blocks_tile@,
            items: self.items@,
            wants_pickup: self.wants_pickup@,
            wants_use: self.wants_use@,
            wants_drop: self.wants_drop@,
            wants_melee: self.wants_melee@,
            suffer_damage: self.suffer_damage@.map_values(|row: Option<SufferDamage>| queued(row)),
            player: self.player,
            map: self.map@,
            log: self.log@,
            runstate: self.runstate,
        }
    }
}

impl World {
    /// Whether the world is in order.
    pub open spec fn wf(&self) -> bool {
        self@.wf()
    }

    /// A world without entities on the given level, before its first turn.
    pub fn new(map: TileMap) -> (world: World)
        requires
            map.wf(),
        ensures
            world.wf(),
            world@.count() == 0,
            world@.map == map@.with_no_content(),
            world@.log == Seq::<Seq<char>>::empty(),
            world@.player == 0,
            world@.runstate == RunState::PreRun,
    {
        let mut map = map;
        map.clear_content_index();
        let world = World {
            positions: Storage::new(),
            names: Storage::new(),
            combat_stats: Storage::new(),
            in_backpack: Storage::new(),
            equipped: Storage::new(),
            provides_healing: Storage::new(),
            inflicts_damage: Storage::new(),
            area_of_effect: Storage::new(),
            confusion: Storage::new(),
            consumable: Storage::new(),
            equippable: Storage::new(),
            blocks_tile: Storage::new(),
            items: Storage::new(),
            wants_pickup: Storage::new(),
            wants_use: Storage::new(),
            wants_drop: Storage::new(),
            wants_melee: Storage::new(),
            suffer_damage: Storage::new(),
            player: 0,
            map,
            log: Gamelog::new(),
            runstate: RunState::PreRun,
        };
        world
    }

    fn is_aligned(&self) -> (ok: bool)
        ensures
            ok == self@.aligned(),
    {
        let n = self.positions.len();
        self.names.len() == n && self.combat_stats.len() == n && self.in_backpack.len() == n
            && self.equipped.len() == n && self.provides_healing.len() == n
            && self.inflicts_damage.len() == n && self.area_of_effect.len() == n
            && self.confusion.len() == n && self.consumable.len() == n && self.equippable.len() == n
            && self.blocks_tile.len() == n && self.items.len() == n && self.wants_pickup.len() == n
            && self.wants_use.len() == n && self.wants_drop.len() == n && self.wants_melee.len() == n
            && self.suffer_damage.len() == n
    }

    fn rows_in_order(&self) -> (ok: bool)
        requires
            self@.aligned(),
        ensures
            ok == (self@.one_place_each() && self@.on_the_map() && self@.hp_in_range()),
    {
        let n = self.positions.len();
        let mut e: usize = 0;
        while e < n
            invariant
                e <= n,
                n == self@.count(),
                self@.aligned(),
                forall|x: int| 0 <= x < e ==> #[trigger] self@.places(x) <= 1,
                forall|x: int|
                    0 <= x < e ==> match #[trigger] self@.positions[x] {
                        Some(at) => self@.map.in_bounds(at.x as int, at.y as int),
                        None => true,
                    },
                forall|x: int|
                    0 <= x < e ==> match #[trigger] self@.combat_stats[x] {
                        Some(stats) => 0 <= stats.hp <= stats.max_hp,
                        None => true,
                    },
            decreases n - e,
        {
            let on_map = self.positions.has(e);
            let stowed = self.in_backpack.has(e);
            let worn = self.equipped.has(e);
            if (on_map && stowed) || (on_map && worn) || (stowed && worn) {
                assert(self@.places(e as int) > 1);
                return false;
            }
            if let Some(at) = self.positions.get(e) {
                if !self.map.in_bounds(at.x, at.y) {
                    assert(self@.positions[e as int] == Some(*at));
                    return false;
                }
            }
            if let Some(stats) = self.combat_stats.get(e) {
                if stats.hp < 0 || stats.hp > stats.max_hp {
                    assert(self@.combat_stats[e as int] == Some(*stats));
                    return false;
                }
            }
            e = e + 1;
        }
        true
    }

    fn slots_in_order(&self) -> (ok: bool)
        requires
            self@.aligned(),
        ensures
            ok == self@.one_item_per_slot(),
    {
        let n = self.equipped.len();
        let mut a: usize = 0;
        while a < n
            invariant
                a <= n,
                n == self@.equipped.len(),
                forall|x: int, y: int, owner: Entity, slot: EquipmentSlot|
                    0 <= y < x < a && #[trigger] self@.worn(x, owner, slot) && #[trigger] self@.worn(
                        y,
                        owner,
                        slot,
                    ) ==> false,
            decreases n - a,
        {
            if let Some(mine) = self.equipped.get(a) {
                let mut b: usize = 0;
                while b < a
                    invariant
                        b <= a,
                        a < n,
                        n == self@.equipped.len(),
                        self@.equipped[a as int] == Some(*mine),
                        forall|y: int| 0 <= y < b ==> !self@.worn(y, mine.owner, mine.slot),
                    decreases a - b,
                {
                    if let Some(theirs) = self.equipped.get(b) {
                        if theirs.owner == mine.owner && theirs.slot == mine.slot {
                            assert(self@.worn(a as int, mine.owner, mine.slot) && self@.worn(
                                b as int,
                                mine.owner,
                                mine.slot,
                            ));
                            return false;
                        }
                    }
                    b = b + 1;
                }
                proof {
                    assert forall|x: int, y: int, owner: Entity, slot: EquipmentSlot|
                        0 <= y < x < a + 1 && #[trigger] self@.worn(x, owner, slot) && #[trigger] self@.worn(
                            y,
                            owner,
                            slot,
                        ) implies false by {
                        if x == a {
                            assert(!self@.worn(y, mine.owner, mine.slot));
                        }
                    }
                }
            } else {
                proof {
                    assert forall|x: int, y: int, owner: Entity, slot: EquipmentSlot|
                        0 <= y < x < a + 1 && #[trigger] self@.worn(x, owner, slot) && #[trigger] self@.worn(
                            y,
                            owner,
                            slot,
                        ) implies false by {
                        assert(x != a);
                    }
                }
            }
            a = a + 1;
        }
        proof {
            assert forall|x: int, y: int, owner: Entity, slot: EquipmentSlot|
                #[trigger] self@.worn(x, owner, slot) && #[trigger] self@.worn(y, owner, slot) implies x
                == y by {
                if x < y {
                    assert(self@.worn(y, owner, slot) && self@.worn(x, owner, slot));
                } else if y < x {
                    assert(self@.worn(x, owner, slot) && self@.worn(y, owner, slot));
                }
            }
        }
        true
    }

    fn index_in_order(&self) -> (ok: bool)
        ensures
            ok == self@.indexed_within(),
    {
        let n = self.positions.len();
        let mut i: usize = 0;
        while i < self.map.tile_content.len()
            invariant
                i <= self.map.tile_content@.len(),
                n == self@.count(),
                forall|t: int, k: int|
                    0 <= t < i && 0 <= k < self@.map.tile_content[t].len() ==> #[trigger] self@.map.tile_content[t][k]
                        < n,
            decreases self.map.tile_content@.len() - i,
        {
            let cell = &self.map.tile_content[i];
            assert(cell@ == self@.map.tile_content[i as int]);
            let mut k: usize = 0;
            while k < cell.len()
                invariant
                    k <= cell@.len(),
                    i < self.map.tile_content@.len(),
                    n == self@.count(),
                    cell@ == self@.map.tile_content[i as int],
                    forall|j: int| 0 <= j < k ==> #[trigger] cell@[j] < n,
                decreases cell@.len() - k,
            {
                if cell[k] >= n {
                    assert(self@.map.tile_content[i as int][k as int] >= n);
                    return false;
                }
                k = k + 1;
            }
            i = i + 1;
        }
        true
    }

    /// Whether the world is in order: every function that takes a world
    /// counts on it.
    pub fn is_well_formed(&self) -> (ok: bool)
        ensures
            ok == self.wf(),
    {
        self.is_aligned() && self.map.is_well_formed() && self.rows_in_order() && self.slots_in_order()
            && self.index_in_order()
    }

    /// The number of entities the tables have a row for.
    pub fn count(&self) -> (n: usize)
        ensures
            n == self@.count(),
    {
        self.positions.len()
    }

    /// Makes room for one more entity and returns it. It has no attribute yet.
    pub fn create_entity(&mut self) -> (e: Entity)
        requires
            old(self).wf(),
        ensures
            final(self).wf(),
            e == old(self)@.count(),
            final(self)@ == old(self)@.with_new_entity(),
    {
        let e = self.positions.len();
        self.positions.grow();
        self.names.grow();
        self.combat_stats.grow();
        self.in_backpack.grow();
        self.equipped.grow();
        self.provides_healing.grow();
        self.inflicts_damage.grow();
        self.area_of_effect.grow();
        self.confusion.grow();
        self.consumable.grow();
        self.equippable.grow();
        self.blocks_tile.grow();
        self.items.grow();
        self.wants_pickup.grow();
        self.wants_use.grow();
        self.wants_drop.grow();
        self.wants_melee.grow();
        self.suffer_damage.grow();
        proof {
            assert(self@.names =~= old(self)@.with_new_entity().names);
            assert(self@.suffer_damage =~= old(self)@.with_new_entity().suffer_damage);
            lemma_new_entity_wf(old(self)@);
        }
        e
    }

    /// Takes every attribute away from `e`: the entity is gone.
    pub fn delete_entity(&mut self, e: Entity)
        requires
            old(self).wf(),
            e < old(self)@.count(),
        ensures
            final(self).wf(),
            final(self)@ == old(self)@.without(e),
    {
        self.positions.remove(e);
        self.names.remove(e);
        self.combat_stats.remove(e);
        self.in_backpack.remove(e);
        self.equipped.remove(e);
        self.provides_healing.remove(e);
        self.inflicts_damage.remove(e);
        self.area_of_effect.remove(e);
        self.confusion.remove(e);
        self.consumable.remove(e);
        self.equippable.remove(e);
        self.blocks_tile.remove(e);
        self.items.remove(e);
        self.wants_pickup.remove(e);
        self.wants_use.remove(e);
        self.wants_drop.remove(e);
        self.wants_melee.remove(e);
        self.suffer_damage.remove(e);
        proof {
            assert(self@.names =~= old(self)@.without(e).names);
            assert(self@.suffer_damage =~= old(self)@.without(e).suffer_damage);
            lemma_without_wf(old(self)@, e);
        }
    }

    /// Appends one line to the log.
    pub fn say(&mut self, line: String)
        requires
            old(self).wf(),
        ensures
            final(self).wf(),
            final(self)@ == old(self)@.say(line@),
    {
        self.log.push(line);
        proof {
            lemma_side_tables_wf(old(self)@, self@);
        }
    }

    /// Puts `item` in the backpack of `owner`, taking it from wherever it was.
    pub fn stow(&mut self, item: Entity, owner: Entity)
        requires
            old(self).wf(),
            item < old(self)@.count(),
        ensures
            final(self).wf(),
            final(self)@ == old(self)@.stow(item, owner),
    {
        self.positions.remove(item);
        self.equipped.remove(item);
        self.in_backpack.insert(item, InBackpack { owner });
        proof {
            lemma_stow_wf(old(self)@, item, owner);
        }
    }

    /// Puts `item` in the free `slot` of `owner`, taking it from wherever it was.
    pub(crate) fn wield(&mut self, item: Entity, owner: Entity, slot: EquipmentSlot)
        requires
            old(self).wf(),
            item < old(self)@.count(),
            forall|e: int| !old(self)@.worn(e, owner, slot),
        ensures
            final(self).wf(),
            final(self)@ == old(self)@.wield(item, owner, slot),
    {
        self.positions.remove(item);
        self.in_backpack.remove(item);
        self.equipped.insert(item, Equipped { owner, slot });
        proof {
            lemma_wield_wf(old(self)@, item, owner, slot);
        }
    }

    /// Lays `item` on the tile `at`, taking it from wherever it was.
    pub fn lay(&mut self, item: Entity, at: Position)
        requires
            old(self).wf(),
            item < old(self)@.count(),
            old(self)@.map.in_bounds(at.x as int, at.y as int),
        ensures
            final(self).wf(),
            final(self)@ == old(self)@.lay(item, at),
    {
        self.in_backpack.remove(item);
        self.equipped.remove(item);
        self.positions.insert(item, at);
        proof {
            lemma_lay_wf(old(self)@, item, at);
        }
    }

    /// Queues `amount` of damage for `target`, behind what already waits for it.
    pub fn hurt(&mut self, target: Entity, amount: i32)
        requires
            old(self).wf(),
            target < old(self)@.count(),
        ensures
            final(self).wf(),
            final(self)@ == old(self)@.hurt(target, amount),
    {
        let mut pending = match self.suffer_damage.remove(target) {
            Some(pending) => pending,
            None => SufferDamage { amount: Vec::new() },
        };
        pending.amount.push(amount);
        self.suffer_damage.insert(target, pending);
        proof {
            assert(self@.suffer_damage =~= old(self)@.hurt(target, amount).suffer_damage);
            lemma_side_tables_wf(old(self)@, self@);
        }
    }

    /// Replaces the statistics of `e`.
    pub fn set_stats(&mut self, e: Entity, stats: CombatStats)
        requires
            old(self).wf(),
            e < old(self)@.count(),
            0 <= stats.hp <= stats.max_hp,
        ensures
            final(self).wf(),
            final(self)@ == old(self)@.with_stats(e, stats),
    {
        self.combat_stats.insert(e, stats);
        proof {
            lemma_with_stats_wf(old(self)@, e, stats);
        }
    }

    /// Calls `e` by the given name.
    pub fn set_name(&mut self, e: Entity, name: String)
        requires
            old(self).wf(),
            e < old(self)@.count(),
        ensures
            final(self).wf(),
            final(self)@ == old(self)@.with_name(e, name@),
    {
        self.names.insert(e, Name { name });
        proof {
            assert(self@.names =~= old(self)@.with_name(e, name@).names);
            lemma_side_tables_wf(old(self)@, self@);
        }
    }

    /// The name of `e` as the log writes it.
    pub fn name_text(&self, e: Entity) -> (text: &str)
        requires
            !self@.nameless(e),
        ensures
            text@ == self@.name_of(e),
    {
        match self.names.get(e) {
            Some(name) => name.name.as_str(),
            None => "",
        }
    }

    /// Confuses `e` for `turns` turns, whatever it was before.
    pub fn confuse(&mut self, e: Entity, turns: i32)
        requires
            old(self).wf(),
            e < old(self)@.count(),
        ensures
            final(self).wf(),
            final(self)@ == old(self)@.confuse(e, turns),
    {
        self.confusion.insert(e, Confusion { turns });
        proof {
            lemma_side_tables_wf(old(self)@, self@);
        }
    }
}

} // verus!
