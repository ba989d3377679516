//! The passes that resolve what entities want to do with items: pick them
//! up, use them, drop them.
//!
//! Each pass takes the holders of its intent in the order of their
//! identifiers. An intent is checked against the world as the intents before
//! it left it, and then resolved as a whole. The first intent that fails its
//! check stops the pass, which leaves the world as that intent found it.
use vstd::prelude::*;
use crate::components::{
    CombatStats, Entity, EquipmentSlot, Equipped, InBackpack, Position, TurnError,
    WantsToDropItem, WantsToPickupItem, WantsToUseItem,
};
use crate::gamelog::{
    confuse_line, damage_line, drop_line, equip_line, heal_line, pickup_line, unequip_line,
    write_confuse, write_damage, write_drop, write_equip, write_heal, write_pickup, write_unequip,
};
use crate::map::{cell_index, lemma_cell_index_in_grid, TileMapView};
use crate::storage::{emptied, lookup};
use crate::world::{
    clamp_hp, lemma_lay_wf, lemma_side_tables_wf, lemma_stow_wf, lemma_wield_wf,
    lemma_with_stats_wf, lemma_without_wf, Resolution, World, WorldView,
};

verus! {

// ---------------------------------------------------------------------------
// Picking up
// ---------------------------------------------------------------------------
/// What is wrong with a wish to pick up, if anything: the item has to lie on
/// the map, and the player's item has to have a name for the log.
pub open spec fn pickup_fault(w: WorldView, want: WantsToPickupItem) -> Option<TurnError> {
    if lookup(w.positions, want.item).is_none() {
        Some(TurnError::MissingPosition(want.item))
    } else if want.collected_by == w.player && w.nameless(want.item) {
        Some(TurnError::MissingName(want.item))
    } else {
        None
    }
}

/// The world after the item went from the map into the collector's backpack.
pub open spec fn picked_up(w: WorldView, want: WantsToPickupItem) -> WorldView {
    w.stow(want.item, want.collected_by).say_if(
        want.collected_by == w.player,
        pickup_line(w.name_of(want.item)),
    )
}

/// The pass over the first `k` entities.
pub open spec fn pickups_upto(w: WorldView, k: nat) -> Resolution
    decreases k,
{
    if k == 0 {
        Resolution { world: w, fault: None }
    } else {
        let before = pickups_upto(w, (k - 1) as nat);
        if before.fault.is_some() {
            before
        } else {
            match before.world.wants_pickup[k - 1] {
                None => before,
                Some(want) => match pickup_fault(before.world, want) {
                    Some(fault) => Resolution { world: before.world, fault: Some(fault) },
                    None => Resolution { world: picked_up(before.world, want), fault: None },
                },
            }
        }
    }
}

/// The world after every wish to pick up was forgotten.
pub open spec fn with_no_pickups(w: WorldView) -> WorldView {
    WorldView { wants_pickup: emptied(w.wants_pickup), ..w }
}

/// A pass that has stopped stays where it stopped.
pub proof fn lemma_pickups_stopped(w: WorldView, k: nat, m: nat)
    requires
        k <= m,
        pickups_upto(w, k).fault.is_some(),
    ensures
        pickups_upto(w, m) == pickups_upto(w, k),
    decreases m,
{
    if k < m {
        lemma_pickups_stopped(w, k, (m - 1) as nat);
    }
}

/// Where nobody among the first `k` entities wants to pick anything up, the
/// pass changes nothing.
pub proof fn lemma_pickups_idle(w: WorldView, k: nat)
    requires
        forall|e: int| 0 <= e < k ==> (#[trigger] w.wants_pickup[e]).is_none(),
    ensures
        pickups_upto(w, k) == (Resolution { world: w, fault: None }),
    decreases k,
{
    if k > 0 {
        lemma_pickups_idle(w, (k - 1) as nat);
    }
}

/// The pass of the pickups keeps the world in order, as far as it gets.
pub proof fn lemma_pickups_wf(w: WorldView, k: nat)
    requires
        w.wf(),
        k <= w.count(),
    ensures
        pickups_upto(w, k).world.wf(),
        pickups_upto(w, k).world.count() == w.count(),
    decreases k,
{
    if k > 0 {
        lemma_pickups_wf(w, (k - 1) as nat);
        let before = pickups_upto(w, (k - 1) as nat);
        if before.fault.is_none() {
            match before.world.wants_pickup[k - 1] {
                Some(want) => {
                    if pickup_fault(before.world, want).is_none() {
                        let stowed = before.world.stow(want.item, want.collected_by);
                        lemma_stow_wf(before.world, want.item, want.collected_by);
                        lemma_side_tables_wf(stowed, picked_up(before.world, want));
                    }
                },
                None => {},
            }
        }
    }
}

/// The pass of the pickups touches nothing but where things are, and the log.
pub proof fn lemma_pickups_touch(w: WorldView, k: nat)
    ensures
        pickups_upto(w, k).world == (WorldView {
            positions: pickups_upto(w, k).world.positions,
            in_backpack: pickups_upto(w, k).world.in_backpack,
            equipped: pickups_upto(w, k).world.equipped,
            log: pickups_upto(w, k).world.log,
            ..w
        }),
    decreases k,
{
    if k > 0 {
        lemma_pickups_touch(w, (k - 1) as nat);
    }
}

/// Whether `item` is in the backpack of `owner` and nowhere else.
pub open spec fn stowed_with(w: WorldView, item: Entity, owner: Entity) -> bool {
    &&& lookup(w.positions, item).is_none()
    &&& lookup(w.in_backpack, item) == Some(InBackpack { owner })
    &&& lookup(w.equipped, item).is_none()
}

/// What was picked up stays where it was put: where the pass gets from
/// entity `from` to entity `m` without a fault, an item that was in a
/// backpack and nowhere else at `from` is there at `m`.
pub proof fn lemma_pickup_stays(w: WorldView, item: Entity, owner: Entity, from: nat, m: nat)
    requires
        w.wf(),
        from <= m <= w.count(),
        pickups_upto(w, m).fault.is_none(),
        stowed_with(pickups_upto(w, from).world, item, owner),
    ensures
        stowed_with(pickups_upto(w, m).world, item, owner),
    decreases m,
{
    if from < m {
        let before = pickups_upto(w, (m - 1) as nat);
        if before.fault.is_some() {
            lemma_pickups_stopped(w, (m - 1) as nat, m);
        }
        lemma_pickup_stays(w, item, owner, from, (m - 1) as nat);
        lemma_pickups_wf(w, (m - 1) as nat);
    }
}

/// Every pickup of a pass that ends without a fault is carried out: the
/// item that an entity wished to be picked up is in the collector's
/// backpack after the pass, not on the map and worn by nobody.
pub proof fn lemma_pickups_stow(w: WorldView, holder: Entity)
    requires
        w.wf(),
        holder < w.count(),
        w.wants_pickup[holder as int].is_some(),
        pickups_upto(w, w.count()).fault.is_none(),
    ensures
        stowed_with(
            pickups_upto(w, w.count()).world,
            w.wants_pickup[holder as int].unwrap().item,
            w.wants_pickup[holder as int].unwrap().collected_by,
        ),
{
    let want = w.wants_pickup[holder as int].unwrap();
    let before = pickups_upto(w, holder as nat);
    let after = pickups_upto(w, (holder + 1) as nat);
    if after.fault.is_some() {
        lemma_pickups_stopped(w, (holder + 1) as nat, w.count());
    }
    if before.fault.is_some() {
        lemma_pickups_stopped(w, holder as nat, (holder + 1) as nat);
    }
    lemma_pickups_touch(w, holder as nat);
    lemma_pickups_wf(w, holder as nat);
    assert(before.world.wants_pickup[holder as int] == Some(want));
    assert(pickup_fault(before.world, want).is_none());
    assert(after.world == picked_up(before.world, want));
    assert(stowed_with(after.world, want.item, want.collected_by));
    lemma_pickup_stays(w, want.item, want.collected_by, (holder + 1) as nat, w.count());
}

/// The pass that resolves wishes to pick up.
pub struct ItemCollectionSystem {}

impl ItemCollectionSystem {
    /// Resolves every wish to pick up an item, then forgets them all.
    pub fn run(&mut self, ecs: &mut World) -> (r: Result<(), TurnError>)
        requires
            old(ecs).wf(),
        ensures
            final(ecs).wf(),
            ({
                let end = pickups_upto(old(ecs)@, old(ecs)@.count());
                match r {
                    Ok(()) => end.fault.is_none() && final(ecs)@ == with_no_pickups(end.world),
                    Err(fault) => end.fault == Some(fault) && final(ecs)@ == end.world,
                }
            }),
    {
        let n = ecs.count();
        let mut e: usize = 0;
        while e < n
            invariant
                e <= n,
                n == old(ecs)@.count(),
                n == ecs@.count(),
                ecs.wf(),
                pickups_upto(old(ecs)@, e as nat) == (Resolution { world: ecs@, fault: None }),
            decreases n - e,
        {
            let wish = match ecs.wants_pickup.get(e) {
                Some(want) => Some(*want),
                None => None,
            };
            if let Some(want) = wish {
                if !ecs.positions.has(want.item) {
                    proof {
                        lemma_pickups_stopped(old(ecs)@, (e + 1) as nat, n as nat);
                    }
                    return Err(TurnError::MissingPosition(want.item));
                }
                if want.collected_by == ecs.player {
                    if !ecs.names.has(want.item) {
                        proof {
                            lemma_pickups_stopped(old(ecs)@, (e + 1) as nat, n as nat);
                        }
                        return Err(TurnError::MissingName(want.item));
                    }
                    let line = write_pickup(ecs.name_text(want.item));
                    ecs.stow(want.item, want.collected_by);
                    ecs.say(line);
                } else {
                    ecs.stow(want.item, want.collected_by);
                }
            }
            e = e + 1;
        }
        let ghost resolved = ecs@;
        ecs.wants_pickup.clear();
        proof {
            lemma_side_tables_wf(resolved, ecs@);
        }
        Ok(())
    }
}

// ---------------------------------------------------------------------------
// Dropping
// ---------------------------------------------------------------------------
/// What is wrong with a wish to drop, if anything: the dropper has to stand
/// on the map, the item has to be in the dropper's own backpack (a worn item
/// has to be taken off first), and the player's item has to have a name for
/// the log.
pub open spec fn drop_fault(w: WorldView, dropper: Entity, want: WantsToDropItem) -> Option<
    TurnError,
> {
    if lookup(w.positions, dropper).is_none() {
        Some(TurnError::MissingPosition(dropper))
    } else if lookup(w.in_backpack, want.item) != Some(InBackpack { owner: dropper }) {
        Some(TurnError::NotInBackpack(want.item))
    } else if dropper == w.player && w.nameless(want.item) {
        Some(TurnError::MissingName(want.item))
    } else {
        None
    }
}

/// The world after the item went from the backpack to the dropper's tile.
pub open spec fn dropped(w: WorldView, dropper: Entity, want: WantsToDropItem) -> WorldView {
    w.lay(want.item, lookup(w.positions, dropper).unwrap()).say_if(
        dropper == w.player,
        drop_line(w.name_of(want.item)),
    )
}

/// The pass over the first `k` entities.
pub open spec fn drops_upto(w: WorldView, k: nat) -> Resolution
    decreases k,
{
    if k == 0 {
        Resolution { world: w, fault: None }
    } else {
        let before = drops_upto(w, (k - 1) as nat);
        if before.fault.is_some() {
            before
        } else {
            match before.world.wants_drop[k - 1] {
                None => before,
                Some(want) => match drop_fault(before.world, (k - 1) as Entity, want) {
                    Some(fault) => Resolution { world: before.world, fault: Some(fault) },
                    None => Resolution {
                        world: dropped(before.world, (k - 1) as Entity, want),
                        fault: None,
                    },
                },
            }
        }
    }
}

/// The world after every wish to drop was forgotten.
pub open spec fn with_no_drops(w: WorldView) -> WorldView {
    WorldView { wants_drop: emptied(w.wants_drop), ..w }
}

/// A pass that has stopped stays where it stopped.
pub proof fn lemma_drops_stopped(w: WorldView, k: nat, m: nat)
    requires
        k <= m,
        drops_upto(w, k).fault.is_some(),
    ensures
        drops_upto(w, m) == drops_upto(w, k),
    decreases m,
{
    if k < m {
        lemma_drops_stopped(w, k, (m - 1) as nat);
    }
}

/// Where nobody among the first `k` entities wants to drop anything, the
/// pass changes nothing.
pub proof fn lemma_drops_idle(w: WorldView, k: nat)
    requires
        forall|e: int| 0 <= e < k ==> (#[trigger] w.wants_drop[e]).is_none(),
    ensures
        drops_upto(w, k) == (Resolution { world: w, fault: None }),
    decreases k,
{
    if k > 0 {
        lemma_drops_idle(w, (k - 1) as nat);
    }
}

/// The pass of the drops keeps the world in order, as far as it gets.
pub proof fn lemma_drops_wf(w: WorldView, k: nat)
    requires
        w.wf(),
        k <= w.count(),
    ensures
        drops_upto(w, k).world.wf(),
        drops_upto(w, k).world.count() == w.count(),
    decreases k,
{
    if k > 0 {
        lemma_drops_wf(w, (k - 1) as nat);
        let before = drops_upto(w, (k - 1) as nat);
        if before.fault.is_none() {
            match before.world.wants_drop[k - 1] {
                Some(want) => {
                    let dropper = (k - 1) as Entity;
                    if drop_fault(before.world, dropper, want).is_none() {
                        let at = lookup(before.world.positions, dropper).unwrap();
                        assert(before.world.positions[dropper as int] == Some(at));
                        let laid = before.world.lay(want.item, at);
                        lemma_lay_wf(before.world, want.item, at);
                        lemma_side_tables_wf(laid, dropped(before.world, dropper, want));
                    }
                },
                None => {},
            }
        }
    }
}

/// The pass that resolves wishes to drop.
pub struct ItemDropSystem {}

impl ItemDropSystem {
    /// Resolves every wish to drop an item, then forgets them all.
    pub fn run(&mut self, ecs: &mut World) -> (r: Result<(), TurnError>)
        requires
            old(ecs).wf(),
        ensures
            final(ecs).wf(),
            ({
                let end = drops_upto(old(ecs)@, old(ecs)@.count());
                match r {
                    Ok(()) => end.fault.is_none() && final(ecs)@ == with_no_drops(end.world),
                    Err(fault) => end.fault == Some(fault) && final(ecs)@ == end.world,
                }
            }),
    {
        let n = ecs.count();
        let mut e: usize = 0;
        while e < n
            invariant
                e <= n,
                n == old(ecs)@.count(),
                n == ecs@.count(),
                ecs.wf(),
                drops_upto(old(ecs)@, e as nat) == (Resolution { world: ecs@, fault: None }),
            decreases n - e,
        {
            let wish = match ecs.wants_drop.get(e) {
                Some(want) => Some(*want),
                None => None,
            };
            if let Some(want) = wish {
                let place = match ecs.positions.get(e) {
                    Some(at) => Some(*at),
                    None => None,
                };
                let at = match place {
                    Some(at) => at,
                    None => {
                        proof {
                            lemma_drops_stopped(old(ecs)@, (e + 1) as nat, n as nat);
                        }
                        return Err(TurnError::MissingPosition(e));
                    },
                };
                let carried = match ecs.in_backpack.get(want.item) {
                    Some(pack) => pack.owner == e,
                    None => false,
                };
                if !carried {
                    proof {
                        lemma_drops_stopped(old(ecs)@, (e + 1) as nat, n as nat);
                    }
                    return Err(TurnError::NotInBackpack(want.item));
                }
                assert(ecs@.positions[e as int] == Some(at));
                if e == ecs.player {
                    if !ecs.names.has(want.item) {
                        proof {
                            lemma_drops_stopped(old(ecs)@, (e + 1) as nat, n as nat);
                        }
                        return Err(TurnError::MissingName(want.item));
                    }
                    let line = write_drop(ecs.name_text(want.item));
                    ecs.lay(want.item, at);
                    ecs.say(line);
                } else {
                    ecs.lay(want.item, at);
                }
            }
            e = e + 1;
        }
        let ghost resolved = ecs@;
        ecs.wants_drop.clear();
        proof {
            lemma_side_tables_wf(resolved, ecs@);
        }
        Ok(())
    }
}

// ---------------------------------------------------------------------------
// Using
// ---------------------------------------------------------------------------
/// Who stands on the tile `at`, as the occupancy index has it. Nobody stands
/// outside the map.
pub open spec fn occupants(m: TileMapView, at: Position) -> Seq<Entity> {
    if m.in_bounds(at.x as int, at.y as int) {
        m.tile_content[cell_index(m.width, at.x as int, at.y as int)]
    } else {
        Seq::empty()
    }
}

/// Whether the tile is on the map and not on its outer edge.
pub open spec fn in_interior(m: TileMapView, at: Position) -> bool {
    0 < at.x < m.width - 1 && 0 < at.y < m.height - 1
}

/// Whether the tile at place `k` of the list stands in it before that place too.
pub open spec fn listed_before(blast: Seq<Position>, k: int) -> bool {
    exists|j: int| 0 <= j < k && #[trigger] blast[j] == blast[k]
}

/// Who stands on the first `k` tiles of a blast, tile by tile. Tiles on the
/// edge of the map or outside it are left out, and a tile that is listed
/// twice counts once.
pub open spec fn blast_targets(m: TileMapView, blast: Seq<Position>, k: nat) -> Seq<Entity>
    decreases k,
{
    if k == 0 {
        Seq::empty()
    } else {
        let before = blast_targets(m, blast, (k - 1) as nat);
        if in_interior(m, blast[k - 1]) && !listed_before(blast, k - 1) {
            before + occupants(m, blast[k - 1])
        } else {
            before
        }
    }
}

/// Whom a use of an item affects: the user where no tile is aimed at, whoever
/// stands on the tile aimed at for an item without an area of effect, and
/// whoever stands on a tile of the blast for an item with one.
pub open spec fn use_targets(
    w: WorldView,
    actor: Entity,
    want: WantsToUseItem,
    blast: Seq<Position>,
) -> Seq<Entity> {
    match want.target {
        None => seq![actor],
        Some(at) => if lookup(w.area_of_effect, want.item).is_some() {
            blast_targets(w.map, blast, blast.len())
        } else {
            occupants(w.map, at)
        },
    }
}

/// The item that `owner` wears in `slot`, if there is one.
pub open spec fn worn_in(w: WorldView, owner: Entity, slot: EquipmentSlot) -> Option<Entity> {
    if exists|e: int| w.worn(e, owner, slot) {
        Some((choose|e: int| w.worn(e, owner, slot)) as Entity)
    } else {
        None
    }
}

/// The world after `owner` put `item` in `slot`: what was worn there before
/// is back in the owner's backpack.
pub open spec fn equipped_on(
    w: WorldView,
    loud: bool,
    item: Entity,
    owner: Entity,
    slot: EquipmentSlot,
) -> WorldView {
    let freed = match worn_in(w, owner, slot) {
        Some(worn) => w.stow(worn, owner).say_if(loud, unequip_line(w.name_of(worn))),
        None => w,
    };
    freed.wield(item, owner, slot).say_if(loud, equip_line(freed.name_of(item)))
}

/// The world after the first `k` targets each had `amount` of damage queued.
pub open spec fn damaged(
    w: WorldView,
    loud: bool,
    item: Entity,
    amount: i32,
    targets: Seq<Entity>,
    k: nat,
) -> WorldView
    decreases k,
{
    if k == 0 {
        w
    } else {
        let before = damaged(w, loud, item, amount, targets, (k - 1) as nat);
        let target = targets[k - 1];
        before.hurt(target, amount).say_if(
            loud,
            damage_line(before.name_of(item), before.name_of(target), amount as int),
        )
    }
}

/// Statistics after healing by `amount`: never more than the creature can have.
pub open spec fn healed_stats(stats: CombatStats, amount: i32) -> CombatStats {
    CombatStats { hp: clamp_hp(stats.hp + amount, stats.max_hp as int) as i32, ..stats }
}

/// The world after the first `k` targets were healed, those that have hit
/// points at all.
pub open spec fn healed(
    w: WorldView,
    loud: bool,
    item: Entity,
    amount: i32,
    targets: Seq<Entity>,
    k: nat,
) -> WorldView
    decreases k,
{
    if k == 0 {
        w
    } else {
        let before = healed(w, loud, item, amount, targets, (k - 1) as nat);
        let target = targets[k - 1];
        match lookup(before.combat_stats, target) {
            Some(stats) => before.with_stats(target, healed_stats(stats, amount)).say_if(
                loud,
                heal_line(before.name_of(item), healed_stats(stats, amount).hp - stats.hp),
            ),
            None => before,
        }
    }
}

/// The world after the first `k` targets were confused for `turns` turns.
pub open spec fn confused(
    w: WorldView,
    loud: bool,
    item: Entity,
    turns: i32,
    targets: Seq<Entity>,
    k: nat,
) -> WorldView
    decreases k,
{
    if k == 0 {
        w
    } else {
        let before = confused(w, loud, item, turns, targets, (k - 1) as nat);
        let target = targets[k - 1];
        before.confuse(target, turns).say_if(
            loud,
            confuse_line(before.name_of(item), before.name_of(target)),
        )
    }
}

/// The world after `item` went into its slot on the first target, if it can
/// be worn and there is a target.
pub open spec fn after_equipping(w: WorldView, loud: bool, item: Entity, targets: Seq<Entity>) -> WorldView {
    match lookup(w.equippable, item) {
        Some(fit) => if targets.len() > 0 {
            equipped_on(w, loud, item, targets[0], fit.slot)
        } else {
            w
        },
        None => w,
    }
}

/// The world after the item damaged every target, if it damages.
pub open spec fn after_damaging(w: WorldView, loud: bool, item: Entity, targets: Seq<Entity>) -> WorldView {
    match lookup(w.inflicts_damage, item) {
        Some(harm) => damaged(w, loud, item, harm.damage, targets, targets.len()),
        None => w,
    }
}

/// The world after the item healed every target, if it heals.
pub open spec fn after_healing(w: WorldView, loud: bool, item: Entity, targets: Seq<Entity>) -> WorldView {
    match lookup(w.provides_healing, item) {
        Some(cure) => healed(w, loud, item, cure.heal_amount, targets, targets.len()),
        None => w,
    }
}

/// The world after the item confused every target, if it confuses.
pub open spec fn after_confusing(w: WorldView, loud: bool, item: Entity, targets: Seq<Entity>) -> WorldView {
    match lookup(w.confusion, item) {
        Some(daze) => confused(w, loud, item, daze.turns, targets, targets.len()),
        None => w,
    }
}

/// The world after a consumable item is gone.
pub open spec fn after_consuming(w: WorldView, item: Entity) -> WorldView {
    if lookup(w.consumable, item).is_some() {
        w.without(item)
    } else {
        w
    }
}

/// The world after the effects of an item on its targets: equip, damage,
/// heal, confuse, in that order, and then the item gone if it is consumable.
pub open spec fn effects_applied(w: WorldView, loud: bool, item: Entity, targets: Seq<Entity>) -> WorldView {
    after_consuming(
        after_confusing(
            after_healing(
                after_damaging(after_equipping(w, loud, item, targets), loud, item, targets),
                loud,
                item,
                targets,
            ),
            loud,
            item,
            targets,
        ),
        item,
    )
}

/// The world after one use of an item. Only the player's uses are logged.
pub open spec fn item_used(
    w: WorldView,
    actor: Entity,
    want: WantsToUseItem,
    blast: Seq<Position>,
) -> WorldView {
    effects_applied(w, actor == w.player, want.item, use_targets(w, actor, want, blast))
}

/// Whether the two worlds have the same entities under the same names, with
/// the same effects on the same items.
pub open spec fn same_cast(a: WorldView, b: WorldView) -> bool {
    &&& a.count() == b.count()
    &&& a.player == b.player
    &&& a.names == b.names
    &&& a.equippable == b.equippable
    &&& a.inflicts_damage == b.inflicts_damage
    &&& a.provides_healing == b.provides_healing
    &&& a.consumable == b.consumable
    &&& a.area_of_effect == b.area_of_effect
}

/// The first entity of `list`, from `from` on, that has no name.
pub open spec fn first_nameless(w: WorldView, list: Seq<Entity>, from: nat) -> Option<Entity>
    decreases list.len() - from,
{
    if from >= list.len() {
        None
    } else if w.nameless(list[from as int]) {
        Some(list[from as int])
    } else {
        first_nameless(w, list, from + 1)
    }
}

/// The item that the use would take off its first target, if it has no name.
pub open spec fn nameless_worn(w: WorldView, item: Entity, targets: Seq<Entity>) -> Option<Entity> {
    match lookup(w.equippable, item) {
        Some(fit) => if targets.len() > 0 {
            match worn_in(w, targets[0], fit.slot) {
                Some(worn) => if w.nameless(worn) {
                    Some(worn)
                } else {
                    None
                },
                None => None,
            }
        } else {
            None
        },
        None => None,
    }
}

/// Whether the log would name the targets of this item.
pub open spec fn names_targets(w: WorldView, item: Entity) -> bool {
    lookup(w.inflicts_damage, item).is_some() || lookup(w.confusion, item).is_some()
}

/// Whether one of the entities of `targets`, from place `from` on, has
/// combat statistics in the table.
pub open spec fn heals_someone(
    stats: Seq<Option<CombatStats>>,
    targets: Seq<Entity>,
    from: nat,
) -> bool
    decreases targets.len() - from,
{
    if from >= targets.len() {
        false
    } else {
        lookup(stats, targets[from as int]).is_some() || heals_someone(stats, targets, from + 1)
    }
}

/// Whether the effects of the item on the targets write a line for the
/// player: an item that can be worn, damages or confuses writes one where
/// there is a target, and an item that heals where a target has hit points.
/// A use that misses writes nothing.
pub open spec fn writes_line(w: WorldView, item: Entity, targets: Seq<Entity>) -> bool {
    ||| equip_writes(w, item, targets)
    ||| damage_writes(w, item, targets)
    ||| heal_writes(w, item, targets)
    ||| confuse_writes(w, item, targets)
}

/// Whether putting the item on writes a line: it does where the item can
/// be worn and there is a target.
pub open spec fn equip_writes(w: WorldView, item: Entity, targets: Seq<Entity>) -> bool {
    targets.len() > 0 && lookup(w.equippable, item).is_some()
}

/// Whether the item's damage writes a line: it does where the item
/// damages and there is a target.
pub open spec fn damage_writes(w: WorldView, item: Entity, targets: Seq<Entity>) -> bool {
    targets.len() > 0 && lookup(w.inflicts_damage, item).is_some()
}

/// Whether the item's healing writes a line: it does where the item heals
/// and a target has hit points.
pub open spec fn heal_writes(w: WorldView, item: Entity, targets: Seq<Entity>) -> bool {
    lookup(w.provides_healing, item).is_some() && heals_someone(w.combat_stats, targets, 0)
}

/// Whether the item's confusion writes a line: it does where the item
/// confuses and there is a target.
pub open spec fn confuse_writes(w: WorldView, item: Entity, targets: Seq<Entity>) -> bool {
    targets.len() > 0 && lookup(w.confusion, item).is_some()
}

/// Whether the two tables give combat statistics to the same entities.
pub open spec fn same_fighters(a: Seq<Option<CombatStats>>, b: Seq<Option<CombatStats>>) -> bool {
    a.len() == b.len() && forall|j: int| 0 <= j < a.len() ==> (#[trigger] a[j]).is_some() == b[j].is_some()
}

/// What is wrong with the effects of an item on its targets, if anything.
/// Only the player's uses are logged, so only they can be at fault, and
/// only for what the log has to name: the item where a line is written,
/// the item that the use takes off, and every target of an item that
/// damages or confuses.
pub open spec fn effects_fault(w: WorldView, actor: Entity, item: Entity, targets: Seq<Entity>) -> Option<
    TurnError,
> {
    if actor != w.player {
        None
    } else if writes_line(w, item, targets) && w.nameless(item) {
        Some(TurnError::MissingName(item))
    } else if nameless_worn(w, item, targets).is_some() {
        Some(TurnError::MissingName(nameless_worn(w, item, targets).unwrap()))
    } else if names_targets(w, item) && first_nameless(w, targets, 0).is_some() {
        Some(TurnError::MissingName(first_nameless(w, targets, 0).unwrap()))
    } else {
        None
    }
}

/// What is wrong with a use, if anything.
pub open spec fn use_fault(
    w: WorldView,
    actor: Entity,
    want: WantsToUseItem,
    blast: Seq<Position>,
) -> Option<TurnError> {
    effects_fault(w, actor, want.item, use_targets(w, actor, want, blast))
}

/// One use, checked and then resolved.
pub open spec fn use_resolved(
    w: WorldView,
    actor: Entity,
    want: WantsToUseItem,
    blast: Seq<Position>,
) -> Resolution {
    match use_fault(w, actor, want, blast) {
        Some(fault) => Resolution { world: w, fault: Some(fault) },
        None => Resolution { world: item_used(w, actor, want, blast), fault: None },
    }
}

/// The tiles that the field of view reported for the use of `actor`. An
/// entity that the list does not reach has an empty blast.
pub open spec fn blast_for(blasts: Seq<Vec<Position>>, actor: int) -> Seq<Position> {
    if 0 <= actor < blasts.len() {
        blasts[actor]@
    } else {
        Seq::empty()
    }
}

/// The pass over the first `k` entities.
pub open spec fn uses_upto(w: WorldView, blasts: Seq<Vec<Position>>, k: nat) -> Resolution
    decreases k,
{
    if k == 0 {
        Resolution { world: w, fault: None }
    } else {
        let before = uses_upto(w, blasts, (k - 1) as nat);
        if before.fault.is_some() {
            before
        } else {
            match before.world.wants_use[k - 1] {
                None => before,
                Some(want) => use_resolved(
                    before.world,
                    (k - 1) as Entity,
                    want,
                    blast_for(blasts, k - 1),
                ),
            }
        }
    }
}

/// The world after every wish to use was forgotten.
pub open spec fn with_no_uses(w: WorldView) -> WorldView {
    WorldView { wants_use: emptied(w.wants_use), ..w }
}

/// A pass that has stopped stays where it stopped.
pub proof fn lemma_uses_stopped(w: WorldView, blasts: Seq<Vec<Position>>, k: nat, m: nat)
    requires
        k <= m,
        uses_upto(w, blasts, k).fault.is_some(),
    ensures
        uses_upto(w, blasts, m) == uses_upto(w, blasts, k),
    decreases m,
{
    if k < m {
        lemma_uses_stopped(w, blasts, k, (m - 1) as nat);
    }
}

/// Where nobody among the first `k` entities wants to use anything, the pass
/// changes nothing.
pub proof fn lemma_uses_idle(w: WorldView, blasts: Seq<Vec<Position>>, k: nat)
    requires
        forall|e: int| 0 <= e < k ==> (#[trigger] w.wants_use[e]).is_none(),
    ensures
        uses_upto(w, blasts, k) == (Resolution { world: w, fault: None }),
    decreases k,
{
    if k > 0 {
        lemma_uses_idle(w, blasts, (k - 1) as nat);
    }
}

/// After equipping, `owner` wears exactly the new item in `slot`, whatever
/// was worn there before, and the world is in order.
pub proof fn lemma_equip_leaves_one(
    w: WorldView,
    loud: bool,
    item: Entity,
    owner: Entity,
    slot: EquipmentSlot,
)
    requires
        w.wf(),
        w.count() <= usize::MAX,
        item < w.count(),
    ensures
        equipped_on(w, loud, item, owner, slot).wf(),
        forall|e: int| equipped_on(w, loud, item, owner, slot).worn(e, owner, slot) <==> e == item,
{
    let freed = match worn_in(w, owner, slot) {
        Some(worn) => w.stow(worn, owner).say_if(loud, unequip_line(w.name_of(worn))),
        None => w,
    };
    match worn_in(w, owner, slot) {
        Some(worn) => {
            let found = choose|e: int| w.worn(e, owner, slot);
            assert(w.worn(found, owner, slot));
            assert(worn as int == found);
            let stowed = w.stow(worn, owner);
            lemma_stow_wf(w, worn, owner);
            lemma_side_tables_wf(stowed, freed);
            assert forall|e: int| !freed.worn(e, owner, slot) by {
                if freed.worn(e, owner, slot) {
                    assert(w.worn(e, owner, slot) && w.worn(worn as int, owner, slot));
                }
            }
        },
        None => {
            assert forall|e: int| !freed.worn(e, owner, slot) by {
                if freed.worn(e, owner, slot) {
                    assert(w.worn(e, owner, slot));
                }
            }
        },
    }
    let wielded = freed.wield(item, owner, slot);
    lemma_wield_wf(freed, item, owner, slot);
    let after = equipped_on(w, loud, item, owner, slot);
    lemma_side_tables_wf(wielded, after);
    assert forall|e: int| after.worn(e, owner, slot) <==> e == item by {
        if e != item && after.worn(e, owner, slot) {
            assert(freed.worn(e, owner, slot));
        }
    }
}

/// Equipping leaves exactly one item in the slot: what `owner` wore in
/// `slot` is back in the owner's backpack, the new item is worn there, and
/// nothing else is.
pub proof fn lemma_equip_replaces(
    w: WorldView,
    loud: bool,
    worn: Entity,
    item: Entity,
    owner: Entity,
    slot: EquipmentSlot,
)
    requires
        w.wf(),
        w.worn(worn as int, owner, slot),
        item < w.count(),
        item != worn,
    ensures
        equipped_on(w, loud, item, owner, slot).wf(),
        equipped_on(w, loud, item, owner, slot).in_backpack[worn as int] == Some(InBackpack { owner }),
        equipped_on(w, loud, item, owner, slot).equipped[worn as int].is_none(),
        equipped_on(w, loud, item, owner, slot).positions[worn as int].is_none(),
        equipped_on(w, loud, item, owner, slot).equipped[item as int] == Some(Equipped { owner, slot }),
        forall|e: int| equipped_on(w, loud, item, owner, slot).worn(e, owner, slot) <==> e == item,
{
    let found = choose|e: int| w.worn(e, owner, slot);
    assert(w.worn(found, owner, slot) && w.worn(worn as int, owner, slot));
    assert(worn_in(w, owner, slot) == Some(worn));
    let stowed = w.stow(worn, owner);
    let freed = stowed.say_if(loud, unequip_line(w.name_of(worn)));
    lemma_stow_wf(w, worn, owner);
    lemma_side_tables_wf(stowed, freed);
    assert forall|e: int| !freed.worn(e, owner, slot) by {
        if freed.worn(e, owner, slot) {
            assert(w.worn(e, owner, slot) && w.worn(worn as int, owner, slot));
        }
    }
    let wielded = freed.wield(item, owner, slot);
    lemma_wield_wf(freed, item, owner, slot);
    let after = equipped_on(w, loud, item, owner, slot);
    lemma_side_tables_wf(wielded, after);
    assert forall|e: int| after.worn(e, owner, slot) <==> e == item by {
        if e != item && after.worn(e, owner, slot) {
            assert(freed.worn(e, owner, slot));
        }
    }
}

/// A target with hit points makes the item heal someone.
pub proof fn lemma_heals_someone(
    stats: Seq<Option<CombatStats>>,
    targets: Seq<Entity>,
    from: nat,
    k: int,
)
    requires
        from <= k < targets.len(),
        lookup(stats, targets[k]).is_some(),
    ensures
        heals_someone(stats, targets, from),
    decreases targets.len() - from,
{
    if from < k {
        lemma_heals_someone(stats, targets, from + 1, k);
    }
}

/// Whoever the occupancy index lists on a tile has a row in the tables.
pub proof fn lemma_occupants_within(w: WorldView, at: Position)
    requires
        w.wf(),
    ensures
        forall|j: int|
            0 <= j < occupants(w.map, at).len() ==> (#[trigger] occupants(w.map, at)[j]) < w.count(),
{
    if w.map.in_bounds(at.x as int, at.y as int) {
        lemma_cell_index_in_grid(w.map.width, w.map.height, at.x as int, at.y as int);
        let tile = cell_index(w.map.width, at.x as int, at.y as int);
        assert forall|j: int| 0 <= j < occupants(w.map, at).len() implies (#[trigger] occupants(
            w.map,
            at,
        )[j]) < w.count() by {
            assert(w.map.tile_content[tile][j] < w.count());
        }
    }
}

/// Whoever stands in a blast has a row in the tables.
pub proof fn lemma_blast_within(w: WorldView, blast: Seq<Position>, k: nat)
    requires
        w.wf(),
    ensures
        forall|j: int|
            0 <= j < blast_targets(w.map, blast, k).len() ==> (#[trigger] blast_targets(
                w.map,
                blast,
                k,
            )[j]) < w.count(),
    decreases k,
{
    if k > 0 {
        lemma_blast_within(w, blast, (k - 1) as nat);
        lemma_occupants_within(w, blast[k - 1]);
        let before = blast_targets(w.map, blast, (k - 1) as nat);
        let here = occupants(w.map, blast[k - 1]);
        let now = blast_targets(w.map, blast, k);
        assert forall|j: int| 0 <= j < now.len() implies (#[trigger] now[j]) < w.count() by {
            if now != before {
                if j < before.len() {
                    assert(now[j] == before[j]);
                } else {
                    assert(now[j] == here[j - before.len()]);
                }
            }
        }
    }
}

/// Whomever a use affects has a row in the tables.
pub proof fn lemma_targets_within(
    w: WorldView,
    actor: Entity,
    want: WantsToUseItem,
    blast: Seq<Position>,
)
    requires
        w.wf(),
        actor < w.count(),
    ensures
        forall|j: int|
            0 <= j < use_targets(w, actor, want, blast).len() ==> (#[trigger] use_targets(
                w,
                actor,
                want,
                blast,
            )[j]) < w.count(),
{
    match want.target {
        None => {},
        Some(at) => {
            lemma_blast_within(w, blast, blast.len());
            lemma_occupants_within(w, at);
        },
    }
}

/// Queued damage keeps the world in order.
pub proof fn lemma_damaged_wf(
    w: WorldView,
    loud: bool,
    item: Entity,
    amount: i32,
    targets: Seq<Entity>,
    k: nat,
)
    requires
        w.wf(),
        k <= targets.len(),
        forall|j: int| 0 <= j < targets.len() ==> (#[trigger] targets[j]) < w.count(),
    ensures
        damaged(w, loud, item, amount, targets, k).wf(),
        damaged(w, loud, item, amount, targets, k).count() == w.count(),
    decreases k,
{
    if k > 0 {
        lemma_damaged_wf(w, loud, item, amount, targets, (k - 1) as nat);
        let before = damaged(w, loud, item, amount, targets, (k - 1) as nat);
        assert(targets[k - 1] < w.count());
        let hurt = before.hurt(targets[k - 1], amount);
        lemma_side_tables_wf(before, hurt);
        lemma_side_tables_wf(hurt, damaged(w, loud, item, amount, targets, k));
    }
}

/// Healing keeps the world in order.
pub proof fn lemma_healed_wf(
    w: WorldView,
    loud: bool,
    item: Entity,
    amount: i32,
    targets: Seq<Entity>,
    k: nat,
)
    requires
        w.wf(),
        k <= targets.len(),
        forall|j: int| 0 <= j < targets.len() ==> (#[trigger] targets[j]) < w.count(),
    ensures
        healed(w, loud, item, amount, targets, k).wf(),
        healed(w, loud, item, amount, targets, k).count() == w.count(),
    decreases k,
{
    if k > 0 {
        lemma_healed_wf(w, loud, item, amount, targets, (k - 1) as nat);
        let before = healed(w, loud, item, amount, targets, (k - 1) as nat);
        let target = targets[k - 1];
        assert(target < w.count());
        match lookup(before.combat_stats, target) {
            Some(stats) => {
                assert(before.combat_stats[target as int] == Some(stats));
                assert(0 <= stats.hp <= stats.max_hp);
                let better = healed_stats(stats, amount);
                let cured = before.with_stats(target, better);
                lemma_with_stats_wf(before, target, better);
                lemma_side_tables_wf(cured, healed(w, loud, item, amount, targets, k));
            },
            None => {},
        }
    }
}

/// Confusing keeps the world in order.
pub proof fn lemma_confused_wf(
    w: WorldView,
    loud: bool,
    item: Entity,
    turns: i32,
    targets: Seq<Entity>,
    k: nat,
)
    requires
        w.wf(),
        k <= targets.len(),
        forall|j: int| 0 <= j < targets.len() ==> (#[trigger] targets[j]) < w.count(),
    ensures
        confused(w, loud, item, turns, targets, k).wf(),
        confused(w, loud, item, turns, targets, k).count() == w.count(),
    decreases k,
{
    if k > 0 {
        lemma_confused_wf(w, loud, item, turns, targets, (k - 1) as nat);
        let before = confused(w, loud, item, turns, targets, (k - 1) as nat);
        assert(targets[k - 1] < w.count());
        let dazed = before.confuse(targets[k - 1], turns);
        lemma_side_tables_wf(before, dazed);
        lemma_side_tables_wf(dazed, confused(w, loud, item, turns, targets, k));
    }
}

/// Queued damage touches nothing but the queues and the log.
pub proof fn lemma_damaged_touch(
    w: WorldView,
    loud: bool,
    item: Entity,
    amount: i32,
    targets: Seq<Entity>,
    k: nat,
)
    ensures
        damaged(w, loud, item, amount, targets, k) == (WorldView {
            suffer_damage: damaged(w, loud, item, amount, targets, k).suffer_damage,
            log: damaged(w, loud, item, amount, targets, k).log,
            ..w
        }),
    decreases k,
{
    if k > 0 {
        lemma_damaged_touch(w, loud, item, amount, targets, (k - 1) as nat);
    }
}

/// Healing touches nothing but the combat statistics and the log.
pub proof fn lemma_healed_touch(
    w: WorldView,
    loud: bool,
    item: Entity,
    amount: i32,
    targets: Seq<Entity>,
    k: nat,
)
    ensures
        healed(w, loud, item, amount, targets, k) == (WorldView {
            combat_stats: healed(w, loud, item, amount, targets, k).combat_stats,
            log: healed(w, loud, item, amount, targets, k).log,
            ..w
        }),
    decreases k,
{
    if k > 0 {
        lemma_healed_touch(w, loud, item, amount, targets, (k - 1) as nat);
    }
}

/// Confusing touches nothing but the confusion table and the log.
pub proof fn lemma_confused_touch(
    w: WorldView,
    loud: bool,
    item: Entity,
    turns: i32,
    targets: Seq<Entity>,
    k: nat,
)
    ensures
        confused(w, loud, item, turns, targets, k) == (WorldView {
            confusion: confused(w, loud, item, turns, targets, k).confusion,
            log: confused(w, loud, item, turns, targets, k).log,
            ..w
        }),
    decreases k,
{
    if k > 0 {
        lemma_confused_touch(w, loud, item, turns, targets, (k - 1) as nat);
    }
}

/// A use of an item that can be worn, with all its other effects: the
/// first target wears the item in its slot and nothing else there, what it
/// wore there before is back in its backpack and nowhere else, and the
/// item is in no backpack and not on the map. Only an item that is used up
/// by the use is gone instead, and the slot is left empty.
pub proof fn lemma_use_equips(
    w: WorldView,
    loud: bool,
    item: Entity,
    targets: Seq<Entity>,
    worn: Entity,
)
    requires
        w.wf(),
        w.count() <= usize::MAX,
        lookup(w.equippable, item).is_some(),
        targets.len() > 0,
        forall|j: int| 0 <= j < targets.len() ==> (#[trigger] targets[j]) < w.count(),
    ensures
        ({
            let owner = targets[0];
            let slot = lookup(w.equippable, item).unwrap().slot;
            let end = effects_applied(w, loud, item, targets);
            &&& end.wf()
            &&& lookup(w.consumable, item).is_none() ==> {
                &&& end.equipped[item as int] == Some(Equipped { owner, slot })
                &&& end.in_backpack[item as int].is_none()
                &&& end.positions[item as int].is_none()
                &&& forall|e: int| end.worn(e, owner, slot) <==> e == item
            }
            &&& lookup(w.consumable, item).is_some() ==> {
                &&& end.gone(item as int)
                &&& forall|e: int| !end.worn(e, owner, slot)
            }
            &&& w.worn(worn as int, owner, slot) && worn != item ==> {
                &&& end.in_backpack[worn as int] == Some(InBackpack { owner })
                &&& end.equipped[worn as int].is_none()
                &&& end.positions[worn as int].is_none()
            }
        }),
{
    let owner = targets[0];
    let slot = lookup(w.equippable, item).unwrap().slot;
    let put_on = after_equipping(w, loud, item, targets);
    assert(put_on == equipped_on(w, loud, item, owner, slot));
    lemma_equip_leaves_one(w, loud, item, owner, slot);
    assert(put_on.worn(item as int, owner, slot));
    if w.worn(worn as int, owner, slot) && worn != item {
        lemma_equip_replaces(w, loud, worn, item, owner, slot);
    }
    match worn_in(w, owner, slot) {
        Some(old_item) => {
            let found = choose|e: int| w.worn(e, owner, slot);
            assert(w.worn(found, owner, slot));
            assert(old_item as int == found);
        },
        None => {},
    }
    assert(put_on.count() == w.count());
    assert(put_on.in_backpack[item as int].is_none());
    assert(put_on.positions[item as int].is_none());
    assert(put_on.consumable == w.consumable);
    let harmed = after_damaging(put_on, loud, item, targets);
    match lookup(put_on.inflicts_damage, item) {
        Some(harm) => {
            lemma_damaged_wf(put_on, loud, item, harm.damage, targets, targets.len());
            lemma_damaged_touch(put_on, loud, item, harm.damage, targets, targets.len());
        },
        None => {},
    }
    let cured = after_healing(harmed, loud, item, targets);
    match lookup(harmed.provides_healing, item) {
        Some(cure) => {
            lemma_healed_wf(harmed, loud, item, cure.heal_amount, targets, targets.len());
            lemma_healed_touch(harmed, loud, item, cure.heal_amount, targets, targets.len());
        },
        None => {},
    }
    let dazed = after_confusing(cured, loud, item, targets);
    match lookup(cured.confusion, item) {
        Some(daze) => {
            lemma_confused_wf(cured, loud, item, daze.turns, targets, targets.len());
            lemma_confused_touch(cured, loud, item, daze.turns, targets, targets.len());
        },
        None => {},
    }
    assert(dazed.equipped == put_on.equipped);
    assert(dazed.in_backpack == put_on.in_backpack);
    assert(dazed.positions == put_on.positions);
    assert(dazed.consumable == w.consumable);
    let end = effects_applied(w, loud, item, targets);
    if lookup(w.consumable, item).is_some() {
        lemma_without_wf(dazed, item);
        assert forall|e: int| !end.worn(e, owner, slot) by {
            if end.worn(e, owner, slot) {
                assert(put_on.worn(e, owner, slot));
            }
        }
    } else {
        assert(end == dazed);
        assert forall|e: int| end.worn(e, owner, slot) <==> e == item by {
            assert(end.worn(e, owner, slot) == put_on.worn(e, owner, slot));
        }
    }
}

/// The world after every effect of an item but its being used up.
pub open spec fn before_consuming(
    w: WorldView,
    loud: bool,
    item: Entity,
    targets: Seq<Entity>,
) -> WorldView {
    after_confusing(
        after_healing(
            after_damaging(after_equipping(w, loud, item, targets), loud, item, targets),
            loud,
            item,
            targets,
        ),
        loud,
        item,
        targets,
    )
}

/// The effects of an item, short of its being used up, touch nothing but
/// where things are, the damage queues, the combat statistics, the
/// confusion table and the log, and keep the world in order.
pub proof fn lemma_effects_touch(w: WorldView, loud: bool, item: Entity, targets: Seq<Entity>)
    requires
        w.wf(),
        w.count() <= usize::MAX,
        forall|j: int| 0 <= j < targets.len() ==> (#[trigger] targets[j]) < w.count(),
    ensures
        before_consuming(w, loud, item, targets).wf(),
        before_consuming(w, loud, item, targets).count() == w.count(),
        before_consuming(w, loud, item, targets) == (WorldView {
            positions: before_consuming(w, loud, item, targets).positions,
            in_backpack: before_consuming(w, loud, item, targets).in_backpack,
            equipped: before_consuming(w, loud, item, targets).equipped,
            suffer_damage: before_consuming(w, loud, item, targets).suffer_damage,
            combat_stats: before_consuming(w, loud, item, targets).combat_stats,
            confusion: before_consuming(w, loud, item, targets).confusion,
            log: before_consuming(w, loud, item, targets).log,
            ..w
        }),
        effects_applied(w, loud, item, targets) == after_consuming(
            before_consuming(w, loud, item, targets),
            item,
        ),
{
    let put_on = after_equipping(w, loud, item, targets);
    match lookup(w.equippable, item) {
        Some(fit) => {
            if targets.len() > 0 {
                lemma_equip_leaves_one(w, loud, item, targets[0], fit.slot);
                match worn_in(w, targets[0], fit.slot) {
                    Some(old_item) => {
                        let found = choose|e: int| w.worn(e, targets[0], fit.slot);
                        assert(w.worn(found, targets[0], fit.slot));
                        assert(old_item as int == found);
                    },
                    None => {},
                }
                assert(put_on.count() == w.count());
            }
        },
        None => {},
    }
    let harmed = after_damaging(put_on, loud, item, targets);
    match lookup(put_on.inflicts_damage, item) {
        Some(harm) => {
            lemma_damaged_wf(put_on, loud, item, harm.damage, targets, targets.len());
            lemma_damaged_touch(put_on, loud, item, harm.damage, targets, targets.len());
        },
        None => {},
    }
    let cured = after_healing(harmed, loud, item, targets);
    match lookup(harmed.provides_healing, item) {
        Some(cure) => {
            lemma_healed_wf(harmed, loud, item, cure.heal_amount, targets, targets.len());
            lemma_healed_touch(harmed, loud, item, cure.heal_amount, targets, targets.len());
        },
        None => {},
    }
    match lookup(cured.confusion, item) {
        Some(daze) => {
            lemma_confused_wf(cured, loud, item, daze.turns, targets, targets.len());
            lemma_confused_touch(cured, loud, item, daze.turns, targets, targets.len());
        },
        None => {},
    }
}

/// Entities that want to use nothing are passed over: where the pass over
/// the first `k` entities left the world `at`, and none of the entities
/// from `k` up to `m` wants to use anything there, the pass over the first
/// `m` left it there too.
pub proof fn lemma_uses_skip(w: WorldView, blasts: Seq<Vec<Position>>, at: WorldView, k: nat, m: nat)
    requires
        k <= m,
        uses_upto(w, blasts, k) == (Resolution { world: at, fault: None }),
        forall|e: int| k <= e < m ==> (#[trigger] at.wants_use[e]).is_none(),
    ensures
        uses_upto(w, blasts, m) == (Resolution { world: at, fault: None }),
    decreases m,
{
    if k < m {
        lemma_uses_skip(w, blasts, at, k, (m - 1) as nat);
    }
}

/// Where one entity alone wants to use an item, and its use is not at
/// fault, the pass makes of the world what that one use makes of it.
pub proof fn lemma_lone_use(w: WorldView, blasts: Seq<Vec<Position>>, actor: Entity)
    requires
        w.wf(),
        w.count() <= usize::MAX,
        actor < w.count(),
        w.wants_use[actor as int].is_some(),
        forall|e: int|
            0 <= e < w.count() && e != actor ==> (#[trigger] w.wants_use[e]).is_none(),
        use_fault(
            w,
            actor,
            w.wants_use[actor as int].unwrap(),
            blast_for(blasts, actor as int),
        ).is_none(),
    ensures
        uses_upto(w, blasts, w.count()) == (Resolution {
            world: item_used(
                w,
                actor,
                w.wants_use[actor as int].unwrap(),
                blast_for(blasts, actor as int),
            ),
            fault: None,
        }),
{
    let want = w.wants_use[actor as int].unwrap();
    let blast = blast_for(blasts, actor as int);
    let targets = use_targets(w, actor, want, blast);
    lemma_uses_idle(w, blasts, actor as nat);
    let used = item_used(w, actor, want, blast);
    assert(uses_upto(w, blasts, (actor + 1) as nat) == (Resolution { world: used, fault: None }));
    lemma_targets_within(w, actor, want, blast);
    lemma_effects_touch(w, actor == w.player, want.item, targets);
    let short = before_consuming(w, actor == w.player, want.item, targets);
    assert forall|e: int| actor + 1 <= e < w.count() implies (#[trigger] used.wants_use[e]).is_none() by {
        assert(w.wants_use[e].is_none());
        assert(short.wants_use[e].is_none());
    }
    lemma_uses_skip(w, blasts, used, (actor + 1) as nat, w.count());
}

/// The effects of an item keep the world in order.
pub proof fn lemma_effects_wf(w: WorldView, loud: bool, item: Entity, targets: Seq<Entity>)
    requires
        w.wf(),
        w.count() <= usize::MAX,
        forall|j: int| 0 <= j < targets.len() ==> (#[trigger] targets[j]) < w.count(),
    ensures
        effects_applied(w, loud, item, targets).wf(),
        effects_applied(w, loud, item, targets).count() == w.count(),
{
    let worn = after_equipping(w, loud, item, targets);
    match lookup(w.equippable, item) {
        Some(fit) => {
            if targets.len() > 0 {
                lemma_equip_leaves_one(w, loud, item, targets[0], fit.slot);
                match worn_in(w, targets[0], fit.slot) {
                    Some(old_item) => {
                        let found = choose|e: int| w.worn(e, targets[0], fit.slot);
                        assert(w.worn(found, targets[0], fit.slot));
                        assert(old_item as int == found);
                    },
                    None => {},
                }
                assert(worn.count() == w.count());
            }
        },
        None => {},
    }
    let harmed = after_damaging(worn, loud, item, targets);
    match lookup(worn.inflicts_damage, item) {
        Some(harm) => {
            lemma_damaged_wf(worn, loud, item, harm.damage, targets, targets.len());
        },
        None => {},
    }
    let cured = after_healing(harmed, loud, item, targets);
    match lookup(harmed.provides_healing, item) {
        Some(cure) => {
            lemma_healed_wf(harmed, loud, item, cure.heal_amount, targets, targets.len());
        },
        None => {},
    }
    let dazed = after_confusing(cured, loud, item, targets);
    match lookup(cured.confusion, item) {
        Some(daze) => {
            lemma_confused_wf(cured, loud, item, daze.turns, targets, targets.len());
        },
        None => {},
    }
    if lookup(dazed.consumable, item).is_some() {
        lemma_without_wf(dazed, item);
    }
}

/// The pass of the uses keeps the world in order, as far as it gets.
pub proof fn lemma_uses_wf(w: WorldView, blasts: Seq<Vec<Position>>, k: nat)
    requires
        w.wf(),
        w.count() <= usize::MAX,
        k <= w.count(),
    ensures
        uses_upto(w, blasts, k).world.wf(),
        uses_upto(w, blasts, k).world.count() == w.count(),
    decreases k,
{
    if k > 0 {
        lemma_uses_wf(w, blasts, (k - 1) as nat);
        let before = uses_upto(w, blasts, (k - 1) as nat);
        if before.fault.is_none() {
            match before.world.wants_use[k - 1] {
                Some(want) => {
                    let actor = (k - 1) as Entity;
                    let blast = blast_for(blasts, k - 1);
                    if use_fault(before.world, actor, want, blast).is_none() {
                        lemma_targets_within(before.world, actor, want, blast);
                        lemma_effects_wf(
                            before.world,
                            actor == before.world.player,
                            want.item,
                            use_targets(before.world, actor, want, blast),
                        );
                    }
                },
                None => {},
            }
        }
    }
}

/// Where no entity of a list is found nameless, each one has a name.
pub proof fn lemma_all_named(w: WorldView, list: Seq<Entity>, from: nat)
    requires
        first_nameless(w, list, from).is_none(),
    ensures
        forall|k: int| from <= k < list.len() ==> !w.nameless(#[trigger] list[k]),
    decreases list.len() - from,
{
    if from < list.len() {
        lemma_all_named(w, list, from + 1);
    }
}

fn push_occupants(ecs: &World, at: Position, targets: &mut Vec<Entity>)
    requires
        ecs.wf(),
        forall|k: int| 0 <= k < old(targets)@.len() ==> old(targets)@[k] < ecs@.count(),
    ensures
        final(targets)@ == old(targets)@ + occupants(ecs@.map, at),
        forall|k: int| 0 <= k < final(targets)@.len() ==> final(targets)@[k] < ecs@.count(),
{
    if ecs.map.in_bounds(at.x, at.y) {
        proof {
            lemma_cell_index_in_grid(
                ecs.map.width as int,
                ecs.map.height as int,
                at.x as int,
                at.y as int,
            );
        }
        assert(ecs.map.tile_content.len() == ecs.map.tile_content@.len());
        let idx = ecs.map.xy_idx(at.x, at.y);
        let cell = &ecs.map.tile_content[idx];
        assert(cell@ == ecs@.map.tile_content[idx as int]);
        let mut k: usize = 0;
        while k < cell.len()
            invariant
                k <= cell@.len(),
                ecs.wf(),
                idx < ecs@.map.tile_content.len(),
                cell@ == ecs@.map.tile_content[idx as int],
                targets@ == old(targets)@ + cell@.take(k as int),
                forall|j: int| 0 <= j < targets@.len() ==> targets@[j] < ecs@.count(),
            decreases cell@.len() - k,
        {
            assert(ecs@.map.tile_content[idx as int][k as int] < ecs@.count());
            targets.push(cell[k]);
            assert(cell@.take(k + 1) =~= cell@.take(k as int).push(cell@[k as int]));
            assert(targets@ =~= old(targets)@ + cell@.take(k + 1));
            k = k + 1;
        }
        assert(cell@.take(k as int) =~= cell@);
    } else {
        assert(targets@ =~= old(targets)@ + Seq::<Entity>::empty());
    }
}

fn is_listed_before(blast: &Vec<Position>, k: usize) -> (listed: bool)
    requires
        k < blast@.len(),
    ensures
        listed == listed_before(blast@, k as int),
{
    let mut j: usize = 0;
    while j < k
        invariant
            j <= k,
            k < blast@.len(),
            forall|i: int| 0 <= i < j ==> #[trigger] blast@[i] != blast@[k as int],
        decreases k - j,
    {
        if blast[j].x == blast[k].x && blast[j].y == blast[k].y {
            assert(blast@[j as int] == blast@[k as int]);
            return true;
        }
        j = j + 1;
    }
    false
}

fn find_targets(ecs: &World, actor: Entity, want: &WantsToUseItem, blast: &Vec<Position>) -> (targets:
    Vec<Entity>)
    requires
        ecs.wf(),
        actor < ecs@.count(),
    ensures
        targets@ == use_targets(ecs@, actor, *want, blast@),
        forall|k: int| 0 <= k < targets@.len() ==> targets@[k] < ecs@.count(),
{
    let mut targets: Vec<Entity> = Vec::new();
    match want.target {
        None => {
            targets.push(actor);
            assert(targets@ =~= seq![actor]);
        },
        Some(at) => {
            if ecs.area_of_effect.has(want.item) {
                let mut k: usize = 0;
                assert(targets@ =~= blast_targets(ecs@.map, blast@, 0));
                while k < blast.len()
                    invariant
                        k <= blast@.len(),
                        ecs.wf(),
                        targets@ == blast_targets(ecs@.map, blast@, k as nat),
                        forall|j: int| 0 <= j < targets@.len() ==> targets@[j] < ecs@.count(),
                    decreases blast@.len() - k,
                {
                    let tile = blast[k];
                    if 0 < tile.x && (tile.x as i64) < ecs.map.width as i64 - 1 && 0 < tile.y && (
                    tile.y as i64) < ecs.map.height as i64 - 1 && !is_listed_before(blast, k) {
                        push_occupants(ecs, tile, &mut targets);
                    }
                    k = k + 1;
                }
            } else {
                push_occupants(ecs, at, &mut targets);
                assert(targets@ =~= occupants(ecs@.map, at));
            }
        },
    }
    targets
}

fn find_worn(ecs: &World, owner: Entity, slot: EquipmentSlot) -> (found: Option<Entity>)
    requires
        ecs.wf(),
    ensures
        found == worn_in(ecs@, owner, slot),
        found matches Some(worn) ==> ecs@.worn(worn as int, owner, slot),
{
    let n = ecs.equipped.len();
    let mut e: usize = 0;
    while e < n
        invariant
            e <= n,
            n == ecs@.equipped.len(),
            ecs.wf(),
            forall|x: int| 0 <= x < e ==> !ecs@.worn(x, owner, slot),
        decreases n - e,
    {
        let here = match ecs.equipped.get(e) {
            Some(worn) => worn.owner == owner && worn.slot == slot,
            None => false,
        };
        if here {
            proof {
                assert(ecs@.worn(e as int, owner, slot));
                let other = choose|x: int| ecs@.worn(x, owner, slot);
                assert(ecs@.worn(other, owner, slot) && ecs@.worn(e as int, owner, slot));
            }
            return Some(e);
        }
        e = e + 1;
    }
    None
}

fn find_nameless(ecs: &World, list: &Vec<Entity>) -> (found: Option<Entity>)
    ensures
        found == first_nameless(ecs@, list@, 0),
{
    let mut k: usize = 0;
    while k < list.len()
        invariant
            k <= list@.len(),
            first_nameless(ecs@, list@, 0) == first_nameless(ecs@, list@, k as nat),
        decreases list@.len() - k,
    {
        if !ecs.names.has(list[k]) {
            return Some(list[k]);
        }
        k = k + 1;
    }
    None
}

/// Whether the log can name everything that the effects of `item` on
/// `targets` would make it name.
pub open spec fn can_be_told(w: WorldView, item: Entity, targets: Seq<Entity>) -> bool {
    &&& writes_line(w, item, targets) ==> !w.nameless(item)
    &&& nameless_worn(w, item, targets).is_none()
    &&& names_targets(w, item) ==> forall|k: int|
        0 <= k < targets.len() ==> !w.nameless(#[trigger] targets[k])
}

fn has_fighter(ecs: &World, targets: &Vec<Entity>) -> (found: bool)
    ensures
        found == heals_someone(ecs@.combat_stats, targets@, 0),
{
    let mut k: usize = 0;
    while k < targets.len()
        invariant
            k <= targets@.len(),
            heals_someone(ecs@.combat_stats, targets@, 0) == heals_someone(
                ecs@.combat_stats,
                targets@,
                k as nat,
            ),
        decreases targets@.len() - k,
    {
        if ecs.combat_stats.has(targets[k]) {
            return true;
        }
        k = k + 1;
    }
    false
}

fn check_effects(ecs: &World, actor: Entity, item: Entity, targets: &Vec<Entity>) -> (fault: Option<
    TurnError,
>)
    requires
        ecs.wf(),
    ensures
        fault == effects_fault(ecs@, actor, item, targets@),
        fault.is_none() && actor == ecs@.player ==> can_be_told(ecs@, item, targets@),
{
    if actor != ecs.player {
        return None;
    }
    let touches = targets.len() > 0 && (ecs.equippable.has(item) || ecs.inflicts_damage.has(item)
        || ecs.confusion.has(item));
    let written = touches || (ecs.provides_healing.has(item) && has_fighter(ecs, targets));
    if written && !ecs.names.has(item) {
        return Some(TurnError::MissingName(item));
    }
    if let Some(fit) = ecs.equippable.get(item) {
        if targets.len() > 0 {
            if let Some(worn) = find_worn(ecs, targets[0], fit.slot) {
                if !ecs.names.has(worn) {
                    return Some(TurnError::MissingName(worn));
                }
            }
        }
    }
    if ecs.inflicts_damage.has(item) || ecs.confusion.has(item) {
        if let Some(target) = find_nameless(ecs, targets) {
            return Some(TurnError::MissingName(target));
        }
        proof {
            lemma_all_named(ecs@, targets@, 0);
        }
    }
    None
}

fn equip(ecs: &mut World, loud: bool, item: Entity, targets: &Vec<Entity>)
    requires
        old(ecs).wf(),
        loud && equip_writes(old(ecs)@, item, targets@) ==> !old(ecs)@.nameless(item),
        loud ==> nameless_worn(old(ecs)@, item, targets@).is_none(),
    ensures
        final(ecs).wf(),
        final(ecs)@ == after_equipping(old(ecs)@, loud, item, targets@),
        same_cast(old(ecs)@, final(ecs)@),
        final(ecs)@.confusion == old(ecs)@.confusion,
        final(ecs)@.combat_stats == old(ecs)@.combat_stats,
{
    let fit = match ecs.equippable.get(item) {
        Some(fit) => *fit,
        None => {
            return ;
        },
    };
    if targets.len() == 0 {
        return ;
    }
    let owner = targets[0];
    let slot = fit.slot;
    match find_worn(ecs, owner, slot) {
        Some(worn) => {
            if loud {
                let line = write_unequip(ecs.name_text(worn));
                ecs.stow(worn, owner);
                ecs.say(line);
            } else {
                ecs.stow(worn, owner);
            }
            proof {
                assert forall|e: int| !ecs@.worn(e, owner, slot) by {
                    if ecs@.worn(e, owner, slot) {
                        assert(old(ecs)@.worn(e, owner, slot) && old(ecs)@.worn(
                            worn as int,
                            owner,
                            slot,
                        ));
                    }
                }
            }
        },
        None => {},
    }
    if loud {
        let line = write_equip(ecs.name_text(item));
        ecs.wield(item, owner, slot);
        ecs.say(line);
    } else {
        ecs.wield(item, owner, slot);
    }
}

fn damage_all(ecs: &mut World, loud: bool, item: Entity, targets: &Vec<Entity>)
    requires
        old(ecs).wf(),
        forall|k: int| 0 <= k < targets@.len() ==> targets@[k] < old(ecs)@.count(),
        loud && damage_writes(old(ecs)@, item, targets@) ==> !old(ecs)@.nameless(item),
        loud && names_targets(old(ecs)@, item) ==> forall|k: int|
            0 <= k < targets@.len() ==> !old(ecs)@.nameless(#[trigger] targets@[k]),
    ensures
        final(ecs).wf(),
        final(ecs)@ == after_damaging(old(ecs)@, loud, item, targets@),
        same_cast(old(ecs)@, final(ecs)@),
        final(ecs)@.confusion == old(ecs)@.confusion,
        final(ecs)@.combat_stats == old(ecs)@.combat_stats,
{
    let amount = match ecs.inflicts_damage.get(item) {
        Some(harm) => harm.damage,
        None => {
            return ;
        },
    };
    let mut k: usize = 0;
    while k < targets.len()
        invariant
            k <= targets@.len(),
            ecs.wf(),
            same_cast(old(ecs)@, ecs@),
            ecs@.confusion == old(ecs)@.confusion,
            ecs@.combat_stats == old(ecs)@.combat_stats,
            forall|j: int| 0 <= j < targets@.len() ==> targets@[j] < old(ecs)@.count(),
            loud && targets@.len() > 0 ==> !old(ecs)@.nameless(item),
            loud ==> forall|j: int|
                0 <= j < targets@.len() ==> !old(ecs)@.nameless(#[trigger] targets@[j]),
            ecs@ == damaged(old(ecs)@, loud, item, amount, targets@, k as nat),
        decreases targets@.len() - k,
    {
        let target = targets[k];
        if loud {
            assert(!old(ecs)@.nameless(targets@[k as int]));
            let line = write_damage(ecs.name_text(item), ecs.name_text(target), amount);
            ecs.hurt(target, amount);
            ecs.say(line);
        } else {
            ecs.hurt(target, amount);
        }
        k = k + 1;
    }
}

fn heal_all(ecs: &mut World, loud: bool, item: Entity, targets: &Vec<Entity>)
    requires
        old(ecs).wf(),
        forall|k: int| 0 <= k < targets@.len() ==> targets@[k] < old(ecs)@.count(),
        loud && heal_writes(old(ecs)@, item, targets@) ==> !old(ecs)@.nameless(item),
    ensures
        final(ecs).wf(),
        final(ecs)@ == after_healing(old(ecs)@, loud, item, targets@),
        same_cast(old(ecs)@, final(ecs)@),
        final(ecs)@.confusion == old(ecs)@.confusion,
{
    let amount = match ecs.provides_healing.get(item) {
        Some(cure) => cure.heal_amount,
        None => {
            return ;
        },
    };
    let mut k: usize = 0;
    while k < targets.len()
        invariant
            k <= targets@.len(),
            ecs.wf(),
            same_cast(old(ecs)@, ecs@),
            ecs@.confusion == old(ecs)@.confusion,
            forall|j: int| 0 <= j < targets@.len() ==> targets@[j] < old(ecs)@.count(),
            loud && heals_someone(old(ecs)@.combat_stats, targets@, 0) ==> !old(ecs)@.nameless(item),
            same_fighters(ecs@.combat_stats, old(ecs)@.combat_stats),
            ecs@ == healed(old(ecs)@, loud, item, amount, targets@, k as nat),
        decreases targets@.len() - k,
    {
        let target = targets[k];
        let found = match ecs.combat_stats.get(target) {
            Some(stats) => Some(*stats),
            None => None,
        };
        if let Some(stats) = found {
            assert(ecs@.combat_stats[target as int] == Some(stats));
            assert(0 <= stats.hp <= stats.max_hp);
            proof {
                lemma_heals_someone(old(ecs)@.combat_stats, targets@, 0, k as int);
            }
            let ghost prior = ecs@.combat_stats;
            let raised: i64 = stats.hp as i64 + amount as i64;
            let hp: i32 = if raised <= 0 {
                0
            } else if raised >= stats.max_hp as i64 {
                stats.max_hp
            } else {
                raised as i32
            };
            let better = CombatStats {
                max_hp: stats.max_hp,
                hp,
                defense: stats.defense,
                power: stats.power,
            };
            assert(better == healed_stats(stats, amount));
            if loud {
                let line = write_heal(ecs.name_text(item), hp - stats.hp);
                ecs.set_stats(target, better);
                ecs.say(line);
            } else {
                ecs.set_stats(target, better);
            }
            assert(same_fighters(ecs@.combat_stats, old(ecs)@.combat_stats)) by {
                assert forall|j: int| 0 <= j < prior.len() implies (#[trigger] ecs@.combat_stats[j]).is_some()
                    == old(ecs)@.combat_stats[j].is_some() by {
                    assert(prior[j].is_some() == old(ecs)@.combat_stats[j].is_some());
                }
            }
        }
        k = k + 1;
    }
}

fn confuse_all(ecs: &mut World, loud: bool, item: Entity, targets: &Vec<Entity>)
    requires
        old(ecs).wf(),
        forall|k: int| 0 <= k < targets@.len() ==> targets@[k] < old(ecs)@.count(),
        loud && confuse_writes(old(ecs)@, item, targets@) ==> !old(ecs)@.nameless(item),
        loud && names_targets(old(ecs)@, item) ==> forall|k: int|
            0 <= k < targets@.len() ==> !old(ecs)@.nameless(#[trigger] targets@[k]),
    ensures
        final(ecs).wf(),
        final(ecs)@ == after_confusing(old(ecs)@, loud, item, targets@),
        same_cast(old(ecs)@, final(ecs)@),
{
    let turns = match ecs.confusion.get(item) {
        Some(daze) => daze.turns,
        None => {
            return ;
        },
    };
    let mut k: usize = 0;
    while k < targets.len()
        invariant
            k <= targets@.len(),
            ecs.wf(),
            same_cast(old(ecs)@, ecs@),
            forall|j: int| 0 <= j < targets@.len() ==> targets@[j] < old(ecs)@.count(),
            loud && targets@.len() > 0 ==> !old(ecs)@.nameless(item),
            loud ==> forall|j: int|
                0 <= j < targets@.len() ==> !old(ecs)@.nameless(#[trigger] targets@[j]),
            ecs@ == confused(old(ecs)@, loud, item, turns, targets@, k as nat),
        decreases targets@.len() - k,
    {
        let target = targets[k];
        if loud {
            assert(!old(ecs)@.nameless(targets@[k as int]));
            let line = write_confuse(ecs.name_text(item), ecs.name_text(target));
            ecs.confuse(target, turns);
            ecs.say(line);
        } else {
            ecs.confuse(target, turns);
        }
        k = k + 1;
    }
}

fn consume(ecs: &mut World, item: Entity)
    requires
        old(ecs).wf(),
    ensures
        final(ecs).wf(),
        final(ecs)@ == after_consuming(old(ecs)@, item),
        final(ecs)@.count() == old(ecs)@.count(),
{
    if ecs.consumable.has(item) {
        ecs.delete_entity(item);
    }
}

fn apply_effects(ecs: &mut World, loud: bool, item: Entity, targets: &Vec<Entity>)
    requires
        old(ecs).wf(),
        forall|k: int| 0 <= k < targets@.len() ==> targets@[k] < old(ecs)@.count(),
        loud ==> can_be_told(old(ecs)@, item, targets@),
    ensures
        final(ecs).wf(),
        final(ecs)@ == effects_applied(old(ecs)@, loud, item, targets@),
        final(ecs)@.count() == old(ecs)@.count(),
{
    equip(ecs, loud, item, targets);
    damage_all(ecs, loud, item, targets);
    heal_all(ecs, loud, item, targets);
    confuse_all(ecs, loud, item, targets);
    consume(ecs, item);
}

/// The pass that resolves wishes to use an item.
pub struct ItemUseSystem {}

impl ItemUseSystem {
    /// What to ask the field of view for before the pass runs: the tile that
    /// `actor` aims an item with an area of effect at, and the item's radius.
    pub fn blast_request(ecs: &World, actor: Entity) -> (ask: Option<(Position, i32)>)
        ensures
            ask == (match lookup(ecs@.wants_use, actor) {
                Some(want) => match (want.target, lookup(ecs@.area_of_effect, want.item)) {
                    (Some(at), Some(area)) => Some((at, area.radius)),
                    _ => None,
                },
                None => None,
            }),
    {
        match ecs.wants_use.get(actor) {
            Some(want) => match (want.target, ecs.area_of_effect.get(want.item)) {
                (Some(at), Some(area)) => Some((at, area.radius)),
                _ => None,
            },
            None => None,
        }
    }

    /// Resolves one use of an item by `actor`, given the tiles that the field
    /// of view reported for it. A use that is at fault changes nothing.
    pub fn use_item(ecs: &mut World, actor: Entity, want: WantsToUseItem, blast: &Vec<Position>) -> (r:
        Result<(), TurnError>)
        requires
            old(ecs).wf(),
            actor < old(ecs)@.count(),
        ensures
            final(ecs).wf(),
            final(ecs)@.count() == old(ecs)@.count(),
            match r {
                Ok(()) => {
                    &&& use_fault(old(ecs)@, actor, want, blast@).is_none()
                    &&& final(ecs)@ == item_used(old(ecs)@, actor, want, blast@)
                },
                Err(fault) => {
                    &&& use_fault(old(ecs)@, actor, want, blast@) == Some(fault)
                    &&& final(ecs)@ == old(ecs)@
                },
            },
    {
        let targets = find_targets(ecs, actor, &want, blast);
        match check_effects(ecs, actor, want.item, &targets) {
            Some(fault) => Err(fault),
            None => {
                apply_effects(ecs, actor == ecs.player, want.item, &targets);
                Ok(())
            },
        }
    }

    /// Resolves every wish to use an item, then forgets them all. `blasts`
    /// holds, at the index of each entity that aims an item with an area of
    /// effect, the tiles that the field of view reported for it.
    pub fn run(&mut self, ecs: &mut World, blasts: &Vec<Vec<Position>>) -> (r: Result<(), TurnError>)
        requires
            old(ecs).wf(),
        ensures
            final(ecs).wf(),
            ({
                let end = uses_upto(old(ecs)@, blasts@, old(ecs)@.count());
                match r {
                    Ok(()) => end.fault.is_none() && final(ecs)@ == with_no_uses(end.world),
                    Err(fault) => end.fault == Some(fault) && final(ecs)@ == end.world,
                }
            }),
    {
        let n = ecs.count();
        let nothing: Vec<Position> = Vec::new();
        let mut e: usize = 0;
        while e < n
            invariant
                e <= n,
                n == old(ecs)@.count(),
                n == ecs@.count(),
                ecs.wf(),
                nothing@ == Seq::<Position>::empty(),
                uses_upto(old(ecs)@, blasts@, e as nat) == (Resolution { world: ecs@, fault: None }),
            decreases n - e,
        {
            let wish = match ecs.wants_use.get(e) {
                Some(want) => Some(*want),
                None => None,
            };
            if let Some(want) = wish {
                let blast = if e < blasts.len() {
                    &blasts[e]
                } else {
                    &nothing
                };
                assert(blast@ == blast_for(blasts@, e as int));
                match ItemUseSystem::use_item(ecs, e, want, blast) {
                    Ok(()) => {},
                    Err(fault) => {
                        proof {
                            lemma_uses_stopped(old(ecs)@, blasts@, (e + 1) as nat, n as nat);
                        }
                        return Err(fault);
                    },
                }
            }
            e = e + 1;
        }
        let ghost resolved = ecs@;
        ecs.wants_use.clear();
        proof {
            lemma_side_tables_wf(resolved, ecs@);
        }
        Ok(())
    }
}

} // verus!
