//! What is put on a new level: which kinds of creatures and items, how
//! likely each is at a given depth, and what attributes each starts with.
use vstd::prelude::*;
use vstd::string::*;
use crate::components::{
    AreaOfEffect, BlocksTile, CombatStats, Confusion, Consumable, Entity, EquipmentSlot,
    Equippable, InflictsDamage, Item, Position, ProvidesHealing,
};
use crate::dice::roll_dice;
use crate::map::copy_of;
use crate::world::{lemma_new_entity_wf, World, WorldView};

verus! {

/// What can be found on a level.
#[derive(PartialEq, Eq, Structural, Clone, Copy, Debug)]
pub enum SpawnKind {
    Goblin,
    Orc,
    HealthPotion,
    FireballScroll,
    ConfusionScroll,
    MagicMissileScroll,
    Dagger,
    Shield,
    Longsword,
    TowerShield,
}

/// One throw decides how many spawns a region gets: a die with this many
/// faces, corrected by the depth.
pub const SPAWN_DIE: i32 = 7;

/// Levels deeper than this spawn as this depth does.
pub const DEEPEST: i32 = 400000000;

/// The depth that the spawn table goes by.
pub open spec fn table_depth(depth: int) -> int {
    if depth > DEEPEST {
        DEEPEST as int
    } else {
        depth
    }
}

/// How likely a kind is at a depth, against the others. Nothing is less
/// likely than impossible.
pub open spec fn weight(kind: SpawnKind, depth: int) -> int {
    let d = table_depth(depth);
    let raw = match kind {
        SpawnKind::Goblin => 10,
        SpawnKind::Orc => 1 + d,
        SpawnKind::HealthPotion => 7,
        SpawnKind::FireballScroll => 2 + d,
        SpawnKind::ConfusionScroll => 2 + d,
        SpawnKind::MagicMissileScroll => 4,
        SpawnKind::Dagger => 3,
        SpawnKind::Shield => 3,
        SpawnKind::Longsword => d - 1,
        SpawnKind::TowerShield => d - 1,
    };
    if raw < 0 {
        0
    } else {
        raw
    }
}

/// The kinds in the order of the spawn table.
pub open spec fn kinds() -> Seq<SpawnKind> {
    seq![
        SpawnKind::Goblin,
        SpawnKind::Orc,
        SpawnKind::HealthPotion,
        SpawnKind::FireballScroll,
        SpawnKind::ConfusionScroll,
        SpawnKind::MagicMissileScroll,
        SpawnKind::Dagger,
        SpawnKind::Shield,
        SpawnKind::Longsword,
        SpawnKind::TowerShield,
    ]
}

/// The sum of the first `upto` weights of a table.
pub open spec fn total_weight(table: Seq<(SpawnKind, i32)>, upto: nat) -> int
    decreases upto,
{
    if upto == 0 {
        0
    } else {
        total_weight(table, (upto - 1) as nat) + table[upto - 1].1
    }
}

/// The kind that a roll picks from a table, looking from entry `from` on:
/// each entry takes as many rolls as its weight.
pub open spec fn picked(table: Seq<(SpawnKind, i32)>, roll: int, from: nat) -> Option<SpawnKind>
    decreases table.len() - from,
{
    if from >= table.len() {
        None
    } else if roll < table[from as int].1 {
        Some(table[from as int].0)
    } else {
        picked(table, roll - table[from as int].1, from + 1)
    }
}

/// Whether the table is the spawn table of the depth.
pub open spec fn is_room_table(table: Seq<(SpawnKind, i32)>, depth: int) -> bool {
    &&& table.len() == kinds().len()
    &&& forall|i: int|
        0 <= i < table.len() ==> (#[trigger] table[i]) == (kinds()[i], weight(kinds()[i], depth) as i32)
}

/// A roll below the sum of the weights picks something.
pub proof fn lemma_roll_picks(table: Seq<(SpawnKind, i32)>, roll: int, from: nat)
    requires
        from <= table.len(),
        forall|i: int| 0 <= i < table.len() ==> (#[trigger] table[i]).1 >= 0,
        0 <= roll < total_weight(table, table.len()) - total_weight(table, from),
    ensures
        picked(table, roll, from).is_some(),
    decreases table.len() - from,
{
    if from < table.len() {
        lemma_total_grows(table, from + 1, table.len());
        if roll >= table[from as int].1 {
            lemma_roll_picks(table, roll - table[from as int].1, from + 1);
        }
    }
}

/// The sum of the weights grows with the number of entries counted.
pub proof fn lemma_total_grows(table: Seq<(SpawnKind, i32)>, a: nat, b: nat)
    requires
        a <= b <= table.len(),
        forall|i: int| 0 <= i < table.len() ==> (#[trigger] table[i]).1 >= 0,
    ensures
        total_weight(table, a) <= total_weight(table, b),
    decreases b,
{
    if a < b {
        lemma_total_grows(table, a, (b - 1) as nat);
    }
}

/// The spawn table of a depth.
pub fn room_table(depth: i32) -> (table: Vec<(SpawnKind, i32)>)
    ensures
        is_room_table(table@, depth as int),
        forall|i: int| 0 <= i < table@.len() ==> 0 <= (#[trigger] table@[i]).1,
        0 < total_weight(table@, table@.len()) < i32::MAX,
{
    let d: i32 = if depth > DEEPEST {
        DEEPEST
    } else {
        depth
    };
    let deep: i32 = if d < 1 {
        0
    } else {
        d - 1
    };
    let orc: i32 = if d < -1 {
        0
    } else {
        1 + d
    };
    let scroll: i32 = if d < -2 {
        0
    } else {
        2 + d
    };
    let mut table: Vec<(SpawnKind, i32)> = Vec::new();
    table.push((SpawnKind::Goblin, 10));
    table.push((SpawnKind::Orc, orc));
    table.push((SpawnKind::HealthPotion, 7));
    table.push((SpawnKind::FireballScroll, scroll));
    table.push((SpawnKind::ConfusionScroll, scroll));
    table.push((SpawnKind::MagicMissileScroll, 4));
    table.push((SpawnKind::Dagger, 3));
    table.push((SpawnKind::Shield, 3));
    table.push((SpawnKind::Longsword, deep));
    table.push((SpawnKind::TowerShield, deep));
    proof {
        reveal_with_fuel(total_weight, 11);
    }
    table
}

/// The kind that `roll` picks from the table.
pub fn pick(table: &Vec<(SpawnKind, i32)>, roll: i32) -> (kind: Option<SpawnKind>)
    ensures
        kind == picked(table@, roll as int, 0),
{
    let mut left: i128 = roll as i128;
    let mut i: usize = 0;
    while i < table.len()
        invariant
            i <= table@.len(),
            picked(table@, roll as int, 0) == picked(table@, left as int, i as nat),
            -0x1_0000_0000 * (i + 1) <= left <= 0x1_0000_0000 * (i + 1),
        decreases table@.len() - i,
    {
        if left < table[i].1 as i128 {
            return Some(table[i].0);
        }
        left = left - table[i].1 as i128;
        i = i + 1;
    }
    None
}

/// Draws a kind from the table, each as likely as its weight says. Nothing
/// is drawn from a table without weight.
pub fn roll_kind(table: &Vec<(SpawnKind, i32)>, rng: &mut rltk::RandomNumberGenerator) -> (kind:
    Option<SpawnKind>)
    requires
        forall|i: int| 0 <= i < table@.len() ==> 0 <= (#[trigger] table@[i]).1,
        total_weight(table@, table@.len()) < i32::MAX,
    ensures
        kind.is_some() == (total_weight(table@, table@.len()) > 0),
        kind matches Some(k) ==> exists|roll: int|
            0 <= roll < total_weight(table@, table@.len()) && picked(table@, roll, 0) == Some(k),
{
    let mut total: i64 = 0;
    let mut i: usize = 0;
    while i < table.len()
        invariant
            i <= table@.len(),
            forall|j: int| 0 <= j < table@.len() ==> 0 <= (#[trigger] table@[j]).1,
            total_weight(table@, table@.len()) < i32::MAX,
            total == total_weight(table@, i as nat),
            0 <= total < i32::MAX,
        decreases table@.len() - i,
    {
        proof {
            lemma_total_grows(table@, 0, (i + 1) as nat);
            lemma_total_grows(table@, (i + 1) as nat, table@.len());
        }
        total = total + table[i].1 as i64;
        i = i + 1;
    }
    if total < 1 {
        return None;
    }
    let roll = roll_dice(rng, 1, total as i32) - 1;
    proof {
        lemma_roll_picks(table@, roll as int, 0);
    }
    pick(table, roll)
}

/// How many spawns a region gets at most at this depth.
pub open spec fn spawn_bound(depth: int) -> int {
    if SPAWN_DIE + depth - 4 < 0 {
        0
    } else {
        SPAWN_DIE + depth - 4
    }
}

/// How many spawns a region gets at least at this depth, if it has the tiles.
pub open spec fn spawn_floor(depth: int) -> int {
    if 1 + depth - 4 < 0 {
        0
    } else {
        1 + depth - 4
    }
}

/// Plans the spawns of one region: draws how many there are, between
/// `spawn_floor` and `spawn_bound` but no more than the region has tiles,
/// and for each one a tile of the region that has none yet, and a kind.
/// The plan grows at its end.
pub fn spawn_region(
    area: &Vec<usize>,
    depth: i32,
    rng: &mut rltk::RandomNumberGenerator,
    spawn_list: &mut Vec<(usize, SpawnKind)>,
)
    ensures
        final(spawn_list)@.len() >= old(spawn_list)@.len(),
        final(spawn_list)@.take(old(spawn_list)@.len() as int) == old(spawn_list)@,
        final(spawn_list)@.len() - old(spawn_list)@.len() <= area@.len(),
        final(spawn_list)@.len() - old(spawn_list)@.len() <= spawn_bound(depth as int),
        final(spawn_list)@.len() - old(spawn_list)@.len() >= area@.len() || final(spawn_list)@.len()
            - old(spawn_list)@.len() >= spawn_floor(depth as int),
        forall|k: int|
            old(spawn_list)@.len() <= k < final(spawn_list)@.len() ==> area@.contains(
                (#[trigger] final(spawn_list)@[k]).0,
            ),
        area@.no_duplicates() ==> forall|j: int, k: int|
            old(spawn_list)@.len() <= j < k < final(spawn_list)@.len() ==> (
            #[trigger] final(spawn_list)@[j]).0 != (#[trigger] final(spawn_list)@[k]).0,
{
    let table = room_table(depth);
    let thrown: i64 = roll_dice(rng, 1, SPAWN_DIE) as i64 + depth as i64 - 4;
    let wanted: u64 = if thrown < 0 {
        0
    } else {
        thrown as u64
    };
    let mut free = copy_of(area);
    let ghost first = spawn_list@.len();
    let mut made: u64 = 0;
    assert(spawn_list@.take(first as int) =~= old(spawn_list)@);
    while made < wanted && free.len() > 0
        invariant
            first == old(spawn_list)@.len(),
            spawn_list@.len() >= first,
            spawn_list@.take(first as int) == old(spawn_list)@,
            spawn_list@.len() - first == made,
            made <= wanted,
            spawn_floor(depth as int) <= wanted <= spawn_bound(depth as int),
            made + free@.len() == area@.len(),
            is_room_table(table@, depth as int),
            forall|i: int| 0 <= i < table@.len() ==> 0 <= (#[trigger] table@[i]).1,
            0 < total_weight(table@, table@.len()) < i32::MAX,
            forall|k: int| 0 <= k < free@.len() ==> area@.contains(#[trigger] free@[k]),
            forall|k: int| first <= k < spawn_list@.len() ==> area@.contains((#[trigger] spawn_list@[k]).0),
            area@.no_duplicates() ==> free@.no_duplicates(),
            area@.no_duplicates() ==> forall|j: int, k: int|
                first <= j < spawn_list@.len() && 0 <= k < free@.len() ==> (#[trigger] spawn_list@[j]).0
                    != #[trigger] free@[k],
            area@.no_duplicates() ==> forall|j: int, k: int|
                first <= j < k < spawn_list@.len() ==> (#[trigger] spawn_list@[j]).0
                    != (#[trigger] spawn_list@[k]).0,
        decreases wanted - made,
    {
        let at: usize = if free.len() == 1 || free.len() >= 0x7fff_ffff {
            0
        } else {
            (roll_dice(rng, 1, free.len() as i32) - 1) as usize
        };
        let ghost before = free@;
        let ghost planned = spawn_list@;
        let tile = free.remove(at);
        assert forall|k: int| 0 <= k < free@.len() implies area@.contains(#[trigger] free@[k]) by {
            if k < at {
                assert(free@[k] == before[k]);
            } else {
                assert(free@[k] == before[k + 1]);
            }
        }
        assert(area@.no_duplicates() ==> free@.no_duplicates() && !free@.contains(tile)) by {
            if area@.no_duplicates() {
                assert forall|j: int, k: int| 0 <= j < free@.len() && 0 <= k < free@.len() && j != k implies free@[j]
                    != free@[k] by {
                    let jj = if j < at {
                        j
                    } else {
                        j + 1
                    };
                    let kk = if k < at {
                        k
                    } else {
                        k + 1
                    };
                    assert(free@[j] == before[jj] && free@[k] == before[kk]);
                }
                assert forall|k: int| 0 <= k < free@.len() implies free@[k] != tile by {
                    let kk = if k < at {
                        k
                    } else {
                        k + 1
                    };
                    assert(free@[k] == before[kk]);
                }
            }
        }
        match roll_kind(&table, rng) {
            Some(kind) => {
                spawn_list.push((tile, kind));
                assert(spawn_list@.take(first as int) =~= planned.take(first as int));
                assert forall|j: int, k: int|
                    area@.no_duplicates() && first <= j < spawn_list@.len() && 0 <= k < free@.len() implies (
                #[trigger] spawn_list@[j]).0 != #[trigger] free@[k] by {
                    let kk = if k < at {
                        k
                    } else {
                        k + 1
                    };
                    assert(free@[k] == before[kk]);
                    if j < planned.len() {
                        assert(spawn_list@[j] == planned[j]);
                    }
                }
                assert forall|j: int, k: int|
                    area@.no_duplicates() && first <= j < k < spawn_list@.len() implies (
                #[trigger] spawn_list@[j]).0 != (#[trigger] spawn_list@[k]).0 by {
                    if k == planned.len() {
                        assert(spawn_list@[j] == planned[j]);
                        assert(before[at as int] == tile);
                    } else {
                        assert(spawn_list@[j] == planned[j] && spawn_list@[k] == planned[k]);
                    }
                }
            },
            None => {
                assert forall|j: int, k: int|
                    area@.no_duplicates() && first <= j < spawn_list@.len() && 0 <= k < free@.len() implies (
                #[trigger] spawn_list@[j]).0 != #[trigger] free@[k] by {
                    let kk = if k < at {
                        k
                    } else {
                        k + 1
                    };
                    assert(free@[k] == before[kk]);
                }
            },
        }
        made = made + 1;
    }
}

/// What an entity of a kind starts with.
pub struct Blueprint {
    pub name: Seq<char>,
    pub stats: Option<CombatStats>,
    pub blocks: Option<BlocksTile>,
    pub item: Option<Item>,
    pub consumable: Option<Consumable>,
    pub healing: Option<ProvidesHealing>,
    pub damage: Option<InflictsDamage>,
    pub area: Option<AreaOfEffect>,
    pub confusion: Option<Confusion>,
    pub equippable: Option<Equippable>,
}

/// A creature: it fights and stands in the way.
pub open spec fn creature(name: Seq<char>) -> Blueprint {
    Blueprint {
        name,
        stats: Some(CombatStats { max_hp: 16, hp: 16, defense: 1, power: 4 }),
        blocks: Some(BlocksTile {  }),
        item: None,
        consumable: None,
        healing: None,
        damage: None,
        area: None,
        confusion: None,
        equippable: None,
    }
}

/// An item without any effect yet.
pub open spec fn plain_item(name: Seq<char>) -> Blueprint {
    Blueprint {
        name,
        stats: None,
        blocks: None,
        item: Some(Item {  }),
        consumable: None,
        healing: None,
        damage: None,
        area: None,
        confusion: None,
        equippable: None,
    }
}

/// What an entity of the kind starts with.
pub open spec fn blueprint(kind: SpawnKind) -> Blueprint {
    match kind {
        SpawnKind::Goblin => creature("Goblin"@),
        SpawnKind::Orc => creature("Orc"@),
        SpawnKind::HealthPotion => Blueprint {
            consumable: Some(Consumable {  }),
            healing: Some(ProvidesHealing { heal_amount: 8 }),
            ..plain_item("Health Potion"@)
        },
        SpawnKind::FireballScroll => Blueprint {
            consumable: Some(Consumable {  }),
            damage: Some(InflictsDamage { damage: 20 }),
            area: Some(AreaOfEffect { radius: 3 }),
            ..plain_item("Fireball Scroll"@)
        },
        SpawnKind::ConfusionScroll => Blueprint {
            consumable: Some(Consumable {  }),
            confusion: Some(Confusion { turns: 4 }),
            ..plain_item("Confusion Scroll"@)
        },
        SpawnKind::MagicMissileScroll => Blueprint {
            consumable: Some(Consumable {  }),
            damage: Some(InflictsDamage { damage: 8 }),
            ..plain_item("Magic Missile Scroll"@)
        },
        SpawnKind::Dagger => Blueprint {
            equippable: Some(Equippable { slot: EquipmentSlot::Melee }),
            ..plain_item("Dagger"@)
        },
        SpawnKind::Shield => Blueprint {
            equippable: Some(Equippable { slot: EquipmentSlot::Shield }),
            ..plain_item("Shield"@)
        },
        SpawnKind::Longsword => Blueprint {
            equippable: Some(Equippable { slot: EquipmentSlot::Melee }),
            ..plain_item("Longsword"@)
        },
        SpawnKind::TowerShield => Blueprint {
            equippable: Some(Equippable { slot: EquipmentSlot::Shield }),
            ..plain_item("Tower Shield"@)
        },
    }
}

/// The world with one more entity, on the tile `at`, that has what the
/// blueprint says.
pub open spec fn built(w: WorldView, at: Position, plan: Blueprint) -> WorldView {
    let e = w.count() as int;
    let v = w.with_new_entity();
    WorldView {
        positions: v.positions.update(e, Some(at)),
        names: v.names.update(e, Some(plan.name)),
        combat_stats: v.combat_stats.update(e, plan.stats),
        blocks_tile: v.blocks_tile.update(e, plan.blocks),
        items: v.items.update(e, plan.item),
        consumable: v.consumable.update(e, plan.consumable),
        provides_healing: v.provides_healing.update(e, plan.healing),
        inflicts_damage: v.inflicts_damage.update(e, plan.damage),
        area_of_effect: v.area_of_effect.update(e, plan.area),
        confusion: v.confusion.update(e, plan.confusion),
        equippable: v.equippable.update(e, plan.equippable),
        ..v
    }
}

/// The world with one more entity of the kind, on the tile `at`.
pub open spec fn spawned(w: WorldView, at: Position, kind: SpawnKind) -> WorldView {
    built(w, at, blueprint(kind))
}

/// An entity built on a tile of the map, with hit points in range, keeps
/// the world in order.
pub proof fn lemma_built_wf(w: WorldView, at: Position, plan: Blueprint)
    requires
        w.wf(),
        w.map.in_bounds(at.x as int, at.y as int),
        plan.stats matches Some(stats) ==> 0 <= stats.hp <= stats.max_hp,
    ensures
        built(w, at, plan).wf(),
{
    let v = w.with_new_entity();
    lemma_new_entity_wf(w);
    let b = built(w, at, plan);
    let e = w.count() as int;
    assert forall|x: int| 0 <= x < b.count() implies #[trigger] b.places(x) <= 1 by {
        assert(v.places(x) <= 1);
    }
    assert forall|x: int, y: int, o: Entity, s: EquipmentSlot|
        #[trigger] b.worn(x, o, s) && #[trigger] b.worn(y, o, s) implies x == y by {
        assert(v.worn(x, o, s) && v.worn(y, o, s));
    }
    assert forall|x: int| 0 <= x < b.count() implies match #[trigger] b.positions[x] {
        Some(at) => b.map.in_bounds(at.x as int, at.y as int),
        None => true,
    } by {
        if x != e {
            assert(b.positions[x] == v.positions[x]);
        }
    }
    assert forall|x: int| 0 <= x < b.count() implies match #[trigger] b.combat_stats[x] {
        Some(stats) => 0 <= stats.hp <= stats.max_hp,
        None => true,
    } by {
        if x != e {
            assert(b.combat_stats[x] == v.combat_stats[x]);
        }
    }
    assert forall|i: int, k: int|
        0 <= i < b.map.tile_content.len() && 0 <= k < b.map.tile_content[i].len() implies #[trigger] b.map.tile_content[i][k]
        < b.count() by {
        assert(w.map.tile_content[i][k] < w.count());
    }
}

fn kind_name(kind: SpawnKind) -> (name: &'static str)
    ensures
        name@ == blueprint(kind).name,
{
    match kind {
        SpawnKind::Goblin => "Goblin",
        SpawnKind::Orc => "Orc",
        SpawnKind::HealthPotion => "Health Potion",
        SpawnKind::FireballScroll => "Fireball Scroll",
        SpawnKind::ConfusionScroll => "Confusion Scroll",
        SpawnKind::MagicMissileScroll => "Magic Missile Scroll",
        SpawnKind::Dagger => "Dagger",
        SpawnKind::Shield => "Shield",
        SpawnKind::Longsword => "Longsword",
        SpawnKind::TowerShield => "Tower Shield",
    }
}

/// Puts one more entity of the kind on the tile `at` and returns it.
pub fn spawn_entity(ecs: &mut World, at: Position, kind: SpawnKind) -> (e: Entity)
    requires
        old(ecs).wf(),
        old(ecs)@.map.in_bounds(at.x as int, at.y as int),
    ensures
        final(ecs).wf(),
        e == old(ecs)@.count(),
        final(ecs)@ == spawned(old(ecs)@, at, kind),
{
    let e = ecs.create_entity();
    let ghost fresh = ecs@;
    ecs.positions.insert(e, at);
    ecs.names.insert(e, crate::components::Name { name: String::from_str(kind_name(kind)) });
    match kind {
        SpawnKind::Goblin => {
            ecs.combat_stats.insert(e, CombatStats { max_hp: 16, hp: 16, defense: 1, power: 4 });
            ecs.blocks_tile.insert(e, BlocksTile {  });
        },
        SpawnKind::Orc => {
            ecs.combat_stats.insert(e, CombatStats { max_hp: 16, hp: 16, defense: 1, power: 4 });
            ecs.blocks_tile.insert(e, BlocksTile {  });
        },
        SpawnKind::HealthPotion => {
            ecs.items.insert(e, Item {  });
            ecs.consumable.insert(e, Consumable {  });
            ecs.provides_healing.insert(e, ProvidesHealing { heal_amount: 8 });
        },
        SpawnKind::FireballScroll => {
            ecs.items.insert(e, Item {  });
            ecs.consumable.insert(e, Consumable {  });
            ecs.inflicts_damage.insert(e, InflictsDamage { damage: 20 });
            ecs.area_of_effect.insert(e, AreaOfEffect { radius: 3 });
        },
        SpawnKind::ConfusionScroll => {
            ecs.items.insert(e, Item {  });
            ecs.consumable.insert(e, Consumable {  });
            ecs.confusion.insert(e, Confusion { turns: 4 });
        },
        SpawnKind::MagicMissileScroll => {
            ecs.items.insert(e, Item {  });
            ecs.consumable.insert(e, Consumable {  });
            ecs.inflicts_damage.insert(e, InflictsDamage { damage: 8 });
        },
        SpawnKind::Dagger => {
            ecs.items.insert(e, Item {  });
            ecs.equippable.insert(e, Equippable { slot: EquipmentSlot::Melee });
        },
        SpawnKind::Shield => {
            ecs.items.insert(e, Item {  });
            ecs.equippable.insert(e, Equippable { slot: EquipmentSlot::Shield });
        },
        SpawnKind::Longsword => {
            ecs.items.insert(e, Item {  });
            ecs.equippable.insert(e, Equippable { slot: EquipmentSlot::Melee });
        },
        SpawnKind::TowerShield => {
            ecs.items.insert(e, Item {  });
            ecs.equippable.insert(e, Equippable { slot: EquipmentSlot::Shield });
        },
    }
    proof {
        let goal = spawned(old(ecs)@, at, kind);
        assert(ecs@.positions =~= goal.positions);
        assert(ecs@.names =~= goal.names);
        assert(ecs@.combat_stats =~= goal.combat_stats);
        assert(ecs@.blocks_tile =~= goal.blocks_tile);
        assert(ecs@.items =~= goal.items);
        assert(ecs@.consumable =~= goal.consumable);
        assert(ecs@.provides_healing =~= goal.provides_healing);
        assert(ecs@.inflicts_damage =~= goal.inflicts_damage);
        assert(ecs@.area_of_effect =~= goal.area_of_effect);
        assert(ecs@.confusion =~= goal.confusion);
        assert(ecs@.equippable =~= goal.equippable);
        assert(ecs@.suffer_damage =~= goal.suffer_damage);
        lemma_built_wf(old(ecs)@, at, blueprint(kind));
    }
    e
}

/// What the player starts with.
pub open spec fn player_blueprint() -> Blueprint {
    Blueprint {
        name: "Player"@,
        stats: Some(CombatStats { max_hp: 30, hp: 30, defense: 2, power: 5 }),
        blocks: None,
        item: None,
        consumable: None,
        healing: None,
        damage: None,
        area: None,
        confusion: None,
        equippable: None,
    }
}

/// Puts the player on the tile `at` and returns the new entity, which the
/// world from now on knows as the player.
pub fn player(ecs: &mut World, at: Position) -> (e: Entity)
    requires
        old(ecs).wf(),
        old(ecs)@.map.in_bounds(at.x as int, at.y as int),
    ensures
        final(ecs).wf(),
        e == old(ecs)@.count(),
        final(ecs)@ == (WorldView { player: e, ..built(old(ecs)@, at, player_blueprint()) }),
{
    let e = ecs.create_entity();
    ecs.positions.insert(e, at);
    ecs.names.insert(e, crate::components::Name { name: String::from_str("Player") });
    ecs.combat_stats.insert(e, CombatStats { max_hp: 30, hp: 30, defense: 2, power: 5 });
    ecs.player = e;
    proof {
        let goal = built(old(ecs)@, at, player_blueprint());
        assert(ecs@.positions =~= goal.positions);
        assert(ecs@.names =~= goal.names);
        assert(ecs@.combat_stats =~= goal.combat_stats);
        assert(ecs@.blocks_tile =~= goal.blocks_tile);
        assert(ecs@.items =~= goal.items);
        assert(ecs@.consumable =~= goal.consumable);
        assert(ecs@.provides_healing =~= goal.provides_healing);
        assert(ecs@.inflicts_damage =~= goal.inflicts_damage);
        assert(ecs@.area_of_effect =~= goal.area_of_effect);
        assert(ecs@.confusion =~= goal.confusion);
        assert(ecs@.equippable =~= goal.equippable);
        assert(ecs@.suffer_damage =~= goal.suffer_damage);
        lemma_built_wf(old(ecs)@, at, player_blueprint());
        crate::world::lemma_side_tables_wf(goal, ecs@);
    }
    e
}

} // verus!
