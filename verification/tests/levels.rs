use rusty_roguelike::components::{
    AreaOfEffect, CombatStats, Confusion, EquipmentSlot, Equippable, InflictsDamage, Position,
    ProvidesHealing,
};
use rusty_roguelike::map::{Rect, TileMap, TileType, MAPHEIGHT, MAPWIDTH};
use rusty_roguelike::map_builders::bsp_dungeon::BspDungeonBuilder;
use rusty_roguelike::map_builders::common::{
    generate_voronoi_spawn_regions, remove_unreachable_areas_get_most_distant, roll_noise_seed,
};
use rusty_roguelike::map_builders::simple_map::SimpleMapBuilder;
use rusty_roguelike::map_builders::{builder_for_roll, random_builder, GenerationError, MapBuilder};
use rusty_roguelike::spawner::{
    pick, player, roll_kind, room_table, spawn_entity, spawn_region, SpawnKind,
};
use rusty_roguelike::world::World;

fn floor_at(map: &mut TileMap, cells: &[(i32, i32)]) {
    for (x, y) in cells {
        let idx = map.xy_idx(*x, *y);
        map.tiles[idx] = TileType::Floor;
    }
}

/// Steps from `start` over floor tiles, four ways.
fn distances_from(map: &TileMap, start: usize) -> Vec<Option<u32>> {
    let mut field: Vec<Option<u32>> = vec![None; map.tiles.len()];
    let width = map.width as usize;
    let mut frontier = vec![start];
    field[start] = Some(0);
    while let Some(tile) = frontier.pop() {
        let steps = field[tile].unwrap();
        let (x, y) = (tile % width, tile / width);
        let mut next = Vec::new();
        if x > 0 {
            next.push(tile - 1);
        }
        if x + 1 < width {
            next.push(tile + 1);
        }
        if y > 0 {
            next.push(tile - width);
        }
        if tile + width < map.tiles.len() {
            next.push(tile + width);
        }
        for n in next {
            if map.tiles[n] == TileType::Floor && field[n].map_or(true, |old| old > steps + 1) {
                field[n] = Some(steps + 1);
                frontier.push(n);
            }
        }
    }
    field
}

fn rooms_are_open(map: &TileMap) {
    for room in map.rooms.iter() {
        assert!(0 <= room.x1 && room.x1 + 2 <= room.x2 && room.x2 <= map.width - 2);
        assert!(0 <= room.y1 && room.y1 + 2 <= room.y2 && room.y2 <= map.height - 2);
        for y in room.y1 + 1..=room.y2 {
            for x in room.x1 + 1..=room.x2 {
                assert_eq!(map.tiles[map.xy_idx(x, y)], TileType::Floor);
            }
        }
    }
}

// ---------------------------------------------------------------------------
// reaching and the exit
// ---------------------------------------------------------------------------
#[test]
fn floor_that_cannot_be_reached_is_walled_up() {
    let mut map = TileMap::new(5, 3, 1);
    floor_at(&mut map, &[(1, 1), (2, 1), (3, 1), (3, 2), (0, 0)]);
    let mut field: Vec<Option<u32>> = vec![None; 15];
    field[6] = Some(0);
    field[7] = Some(100);
    field[8] = Some(200);
    field[1] = Some(900);
    let exit = remove_unreachable_areas_get_most_distant(&mut map, &field);
    assert_eq!(exit, 8);
    assert_eq!(map.tiles[13], TileType::Wall);
    assert_eq!(map.tiles[0], TileType::Wall);
    assert_eq!(map.tiles[6], TileType::Floor);
    assert_eq!(map.tiles[7], TileType::Floor);
    assert_eq!(map.tiles[8], TileType::Floor);
    for (i, tile) in map.tiles.iter().enumerate() {
        if *tile == TileType::Floor {
            assert!(field[i].is_some());
        }
    }
}

#[test]
fn the_exit_is_the_first_of_the_farthest_tiles() {
    let mut map = TileMap::new(5, 3, 1);
    floor_at(&mut map, &[(1, 1), (2, 1), (3, 1)]);
    let mut field: Vec<Option<u32>> = vec![None; 15];
    field[6] = Some(7);
    field[7] = Some(7);
    field[8] = Some(3);
    assert_eq!(remove_unreachable_areas_get_most_distant(&mut map, &field), 6);
}

#[test]
fn the_start_is_the_exit_where_nothing_else_is_within_reach() {
    let mut map = TileMap::new(5, 3, 1);
    floor_at(&mut map, &[(1, 1), (2, 1)]);
    let mut field: Vec<Option<u32>> = vec![None; 15];
    field[6] = Some(0);
    assert_eq!(remove_unreachable_areas_get_most_distant(&mut map, &field), 6);
    assert_eq!(map.tiles[6], TileType::Floor);
    assert_eq!(map.tiles[7], TileType::Wall);
    let mut cell = TileMap::new(3, 3, 1);
    floor_at(&mut cell, &[(1, 1)]);
    let before = cell.tiles.clone();
    let mut around: Vec<Option<u32>> = vec![None; 9];
    around[4] = Some(0);
    let exit = remove_unreachable_areas_get_most_distant(&mut cell, &around);
    assert_eq!(exit, 4);
    assert_eq!(cell.tiles, before);
    assert_eq!(cell.tiles[exit], TileType::Floor);
}

#[test]
fn without_floor_within_reach_the_exit_is_the_first_tile() {
    let mut map = TileMap::new(5, 3, 1);
    floor_at(&mut map, &[(1, 1), (2, 1)]);
    let mut field: Vec<Option<u32>> = vec![None; 15];
    field[0] = Some(3);
    assert_eq!(remove_unreachable_areas_get_most_distant(&mut map, &field), 0);
    assert!(map.tiles.iter().all(|t| *t == TileType::Wall));
    let mut empty = TileMap::new(0, 0, 1);
    assert_eq!(remove_unreachable_areas_get_most_distant(&mut empty, &Vec::new()), 0);
}

#[test]
fn the_walls_are_marked_as_blocked_before_the_floor_is_walled_up() {
    let mut map = TileMap::new(5, 3, 1);
    floor_at(&mut map, &[(1, 1), (2, 1), (3, 1)]);
    map.blocked[6] = true;
    let mut field: Vec<Option<u32>> = vec![None; 15];
    field[6] = Some(0);
    field[7] = Some(1);
    assert_eq!(remove_unreachable_areas_get_most_distant(&mut map, &field), 7);
    for i in 0..15 {
        assert_eq!(map.blocked[i], !(i == 6 || i == 7 || i == 8));
    }
    assert_eq!(map.tiles[8], TileType::Wall);
}

// ---------------------------------------------------------------------------
// spawn regions
// ---------------------------------------------------------------------------
#[test]
fn regions_group_every_floor_tile_by_label() {
    let mut map = TileMap::new(5, 5, 1);
    floor_at(&mut map, &[(0, 1), (1, 1), (2, 1), (3, 1), (4, 1), (2, 2), (1, 3), (3, 3), (2, 4)]);
    let mut labels = vec![0; 25];
    labels[map.xy_idx(1, 1)] = 7;
    labels[map.xy_idx(2, 1)] = -3;
    labels[map.xy_idx(3, 1)] = 7;
    labels[map.xy_idx(2, 2)] = 7;
    labels[map.xy_idx(1, 3)] = -3;
    labels[map.xy_idx(3, 3)] = 12;
    labels[map.xy_idx(1, 2)] = 99;
    let regions = generate_voronoi_spawn_regions(&map, &labels);
    assert_eq!(regions.len(), 4);
    assert_eq!(regions[&7], vec![6, 8, 12]);
    assert_eq!(regions[&-3], vec![7, 16]);
    assert_eq!(regions[&12], vec![18]);
    assert_eq!(regions[&0], vec![5, 9, 22]);
    assert!(!regions.contains_key(&99));
    for (i, tile) in map.tiles.iter().enumerate() {
        let listed = regions.values().filter(|area| area.contains(&i)).count();
        if *tile == TileType::Floor {
            assert_eq!(listed, 1);
            assert!(regions[&labels[i]].contains(&i));
        } else {
            assert_eq!(listed, 0);
        }
    }
}

#[test]
fn floor_on_the_edge_of_the_map_has_its_region_too() {
    let mut map = TileMap::new(3, 2, 1);
    floor_at(&mut map, &[(0, 0), (2, 0), (1, 1), (2, 1)]);
    let regions = generate_voronoi_spawn_regions(&map, &vec![4, 4, 5, 4, 4, 5]);
    assert_eq!(regions.len(), 2);
    assert_eq!(regions[&4], vec![0, 4]);
    assert_eq!(regions[&5], vec![2, 5]);
}

#[test]
fn a_map_without_floor_has_no_regions() {
    let map = TileMap::new(6, 6, 1);
    assert!(generate_voronoi_spawn_regions(&map, &vec![1; 36]).is_empty());
    let narrow = TileMap::new(2, 9, 1);
    assert!(generate_voronoi_spawn_regions(&narrow, &vec![1; 18]).is_empty());
}

// ---------------------------------------------------------------------------
// the dice
// ---------------------------------------------------------------------------
#[test]
fn the_noise_seed_is_a_throw_of_one_die() {
    let mut rng = rltk::RandomNumberGenerator::seeded(11);
    let mut seen = Vec::new();
    for _ in 0..200 {
        let seed = roll_noise_seed(&mut rng);
        assert!(1 <= seed && seed <= 65536);
        seen.push(seed);
    }
    seen.sort();
    seen.dedup();
    assert!(seen.len() > 100);
    assert!(seen[seen.len() - 1] > 2);
}

#[test]
fn the_coin_selects_the_strategy() {
    assert!(matches!(builder_for_roll(1, 3), MapBuilder::Simple(_)));
    assert!(matches!(builder_for_roll(2, 3), MapBuilder::Bsp(_)));
    let builder = builder_for_roll(1, 3);
    let map = builder.get_map();
    assert_eq!((map.width, map.height, map.depth), (MAPWIDTH, MAPHEIGHT, 3));
    assert!(map.tiles.iter().all(|t| *t == TileType::Wall));
    assert!(builder.get_snapshot_history().is_empty());
}

#[test]
fn a_random_builder_is_of_either_strategy() {
    let mut simple = 0;
    let mut bsp = 0;
    for _ in 0..64 {
        match random_builder(2) {
            MapBuilder::Simple(b) => {
                simple += 1;
                assert_eq!(b.draft.depth, 2);
            }
            MapBuilder::Bsp(b) => {
                bsp += 1;
                assert_eq!(b.draft.depth, 2);
            }
        }
    }
    assert!(simple > 0 && bsp > 0);
}

// ---------------------------------------------------------------------------
// rooms and corridors
// ---------------------------------------------------------------------------
#[test]
fn rooms_and_corridors_make_open_rooms_that_keep_apart() {
    for seed in 1..6 {
        let mut rng = rltk::RandomNumberGenerator::seeded(seed);
        let mut builder = SimpleMapBuilder::with_size(40, 30, 1);
        assert_eq!(builder.build_map(&mut rng), Ok(()));
        let map = &builder.draft.map;
        assert!(map.is_well_formed());
        assert_eq!((map.width, map.height), (40, 30));
        assert!(!map.rooms.is_empty());
        rooms_are_open(map);
        for (i, a) in map.rooms.iter().enumerate() {
            assert!(6 <= a.x2 - a.x1 && a.x2 - a.x1 <= 9);
            assert!(6 <= a.y2 - a.y1 && a.y2 - a.y1 <= 9);
            for b in map.rooms.iter().skip(i + 1) {
                assert!(!a.intersect(b));
            }
        }
        let (x, y) = map.rooms[0].center();
        assert_eq!(builder.draft.starting_position, Position { x, y });
        assert_eq!(map.tiles[map.xy_idx(x, y)], TileType::Floor);
        assert!(builder.draft.history.len() >= 2 * map.rooms.len());
    }
}

#[test]
fn room_sizes_vary() {
    let mut rng = rltk::RandomNumberGenerator::seeded(3);
    let mut builder = SimpleMapBuilder::new(1);
    assert_eq!(builder.build_map(&mut rng), Ok(()));
    let mut widths: Vec<i32> = builder.draft.map.rooms.iter().map(|r| r.x2 - r.x1).collect();
    widths.sort();
    widths.dedup();
    assert!(widths.len() > 1);
}

#[test]
fn a_map_too_small_for_a_room_is_no_level() {
    let mut rng = rltk::RandomNumberGenerator::seeded(1);
    let mut builder = SimpleMapBuilder::with_size(7, 20, 1);
    assert_eq!(builder.build_map(&mut rng), Err(GenerationError::NoRoom));
    assert!(builder.draft.map.rooms.is_empty());
    assert!(builder.draft.map.tiles.iter().all(|t| *t == TileType::Wall));
    let mut bsp = BspDungeonBuilder::with_size(30, 10, 1);
    assert_eq!(bsp.build_map(&mut rng), Err(GenerationError::NoRoom));
    assert!(bsp.draft.map.tiles.iter().all(|t| *t == TileType::Wall));
}

#[test]
fn building_again_starts_from_rock() {
    let mut rng = rltk::RandomNumberGenerator::seeded(5);
    let mut builder = SimpleMapBuilder::with_size(40, 30, 1);
    assert_eq!(builder.build_map(&mut rng), Ok(()));
    let first = builder.draft.map.rooms.clone();
    assert_eq!(builder.build_map(&mut rng), Ok(()));
    assert!(builder.draft.map.rooms.len() <= 30);
    rooms_are_open(&builder.draft.map);
    assert!(first != builder.draft.map.rooms);
}

// ---------------------------------------------------------------------------
// binary space partition
// ---------------------------------------------------------------------------
#[test]
fn partition_makes_open_rooms() {
    for seed in 1..6 {
        let mut rng = rltk::RandomNumberGenerator::seeded(seed);
        let mut builder = BspDungeonBuilder::new(2);
        let built = builder.build_map(&mut rng);
        let map = &builder.draft.map;
        assert_eq!(built.is_ok(), !map.rooms.is_empty());
        assert_eq!(built, Ok(()));
        assert!(map.is_well_formed());
        rooms_are_open(map);
        for room in map.rooms.iter() {
            assert!(3 <= room.x1 && room.x2 + 4 <= map.width);
            assert!(3 <= room.y1 && room.y2 + 4 <= map.height);
        }
        let (x, y) = map.rooms[0].center();
        assert_eq!(builder.draft.starting_position, Position { x, y });
        assert!(builder.draft.history.len() >= map.rooms.len());
    }
}

// ---------------------------------------------------------------------------
// the survey
// ---------------------------------------------------------------------------
fn surveyed(seed: u64, mut builder: MapBuilder) -> (MapBuilder, Vec<Option<u32>>) {
    let mut rng = rltk::RandomNumberGenerator::seeded(seed);
    assert_eq!(builder.build_map(&mut rng), Ok(()));
    let map = builder.get_map();
    let start = builder.get_starting_position();
    let field = distances_from(&map, map.xy_idx(start.x, start.y));
    let labels: Vec<i32> = (0..map.tiles.len())
        .map(|i| ((i % map.width as usize) / 10 + 10 * ((i / map.width as usize) / 10)) as i32)
        .collect();
    builder.survey(&field, &labels, &mut rng);
    (builder, field)
}

#[test]
fn a_surveyed_level_is_all_within_reach() {
    for (seed, roll) in [(1, 1), (2, 2), (3, 1), (4, 2)] {
        let before = builder_for_roll(roll, 1);
        let (builder, field) = surveyed(seed, before);
        let map = builder.get_map();
        let mut farthest = 0;
        let mut first_farthest = 0;
        let mut floors = 0;
        for (i, tile) in map.tiles.iter().enumerate() {
            if *tile == TileType::Floor {
                floors += 1;
                let steps = field[i].expect("floor out of reach");
                if steps > farthest {
                    farthest = steps;
                    first_farthest = i;
                }
            }
        }
        assert!(floors > 0);
        let draft = match &builder {
            MapBuilder::Simple(b) => &b.draft,
            MapBuilder::Bsp(b) => &b.draft,
        };
        assert_eq!(draft.exit, first_farthest);
        assert!(farthest > 0);
        let start = builder.get_starting_position();
        assert_eq!(map.tiles[map.xy_idx(start.x, start.y)], TileType::Floor);
        let history = builder.get_snapshot_history();
        assert_eq!(history[history.len() - 1].tiles, map.tiles);
    }
}

#[test]
fn spawns_are_planned_on_floor_and_never_twice() {
    for (seed, roll) in [(1, 1), (2, 2), (7, 1)] {
        let (builder, _) = surveyed(seed, builder_for_roll(roll, 3));
        let map = builder.get_map();
        let draft = match &builder {
            MapBuilder::Simple(b) => &b.draft,
            MapBuilder::Bsp(b) => &b.draft,
        };
        assert!(!draft.spawn_list.is_empty());
        let mut tiles: Vec<usize> = draft.spawn_list.iter().map(|s| s.0).collect();
        for tile in tiles.iter() {
            assert_eq!(map.tiles[*tile], TileType::Floor);
        }
        let planned = tiles.len();
        tiles.sort();
        tiles.dedup();
        assert_eq!(tiles.len(), planned);
    }
}

#[test]
fn the_plan_is_put_into_the_world() {
    let (mut builder, _) = surveyed(9, builder_for_roll(1, 2));
    let mut world = World::new(builder.get_map());
    let start = builder.get_starting_position();
    let hero = player(&mut world, start);
    assert_eq!(hero, 0);
    assert_eq!(world.player, hero);
    assert_eq!(world.names.get(hero).unwrap().name, "Player");
    assert_eq!(
        world.combat_stats.get(hero),
        Some(&CombatStats { max_hp: 30, hp: 30, defense: 2, power: 5 })
    );
    assert_eq!(world.positions.get(hero), Some(&start));
    builder.spawn_entities(&mut world);
    let plan = match &builder {
        MapBuilder::Simple(b) => b.draft.spawn_list.clone(),
        MapBuilder::Bsp(b) => b.draft.spawn_list.clone(),
    };
    assert_eq!(world.count(), 1 + plan.len());
    for (k, (tile, _kind)) in plan.iter().enumerate() {
        let at = world.positions.get(1 + k).expect("spawn without position");
        assert_eq!(world.map.xy_idx(at.x, at.y), *tile);
        assert!(world.names.has(1 + k));
    }
    assert!(world.is_well_formed());
}

// ---------------------------------------------------------------------------
// what spawns
// ---------------------------------------------------------------------------
#[test]
fn the_spawn_table_goes_by_depth() {
    let weights = |depth| room_table(depth).iter().map(|e| e.1).collect::<Vec<i32>>();
    assert_eq!(weights(1), vec![10, 2, 7, 3, 3, 4, 3, 3, 0, 0]);
    assert_eq!(weights(4), vec![10, 5, 7, 6, 6, 4, 3, 3, 3, 3]);
    assert_eq!(weights(-7), vec![10, 0, 7, 0, 0, 4, 3, 3, 0, 0]);
    assert_eq!(weights(i32::MAX), weights(400000000));
    assert_eq!(weights(i32::MAX)[1], 400000001);
    let kinds: Vec<SpawnKind> = room_table(1).iter().map(|e| e.0).collect();
    assert_eq!(kinds[0], SpawnKind::Goblin);
    assert_eq!(kinds[9], SpawnKind::TowerShield);
}

#[test]
fn a_roll_picks_by_weight() {
    let table = room_table(1);
    assert_eq!(pick(&table, 0), Some(SpawnKind::Goblin));
    assert_eq!(pick(&table, 9), Some(SpawnKind::Goblin));
    assert_eq!(pick(&table, 10), Some(SpawnKind::Orc));
    assert_eq!(pick(&table, 12), Some(SpawnKind::HealthPotion));
    assert_eq!(pick(&table, 19), Some(SpawnKind::FireballScroll));
    assert_eq!(pick(&table, 22), Some(SpawnKind::ConfusionScroll));
    assert_eq!(pick(&table, 25), Some(SpawnKind::MagicMissileScroll));
    assert_eq!(pick(&table, 29), Some(SpawnKind::Dagger));
    assert_eq!(pick(&table, 34), Some(SpawnKind::Shield));
    assert_eq!(pick(&table, 35), None);
    assert_eq!(pick(&room_table(2), 38), Some(SpawnKind::Longsword));
    assert_eq!(pick(&room_table(2), 39), Some(SpawnKind::TowerShield));
    assert_eq!(pick(&Vec::new(), 0), None);
}

#[test]
fn a_kind_is_drawn_from_what_has_weight() {
    let mut rng = rltk::RandomNumberGenerator::seeded(21);
    let table = room_table(1);
    let mut seen = Vec::new();
    for _ in 0..300 {
        let kind = roll_kind(&table, &mut rng).expect("nothing drawn");
        assert!(kind != SpawnKind::Longsword && kind != SpawnKind::TowerShield);
        if !seen.contains(&kind) {
            seen.push(kind);
        }
    }
    assert_eq!(seen.len(), 8);
    let nothing = vec![(SpawnKind::Goblin, 0), (SpawnKind::Orc, 0)];
    assert_eq!(roll_kind(&nothing, &mut rng), None);
}

#[test]
fn a_region_gets_a_bounded_number_of_spawns() {
    let area: Vec<usize> = (100..140).collect();
    for seed in 0..20 {
        let mut rng = rltk::RandomNumberGenerator::seeded(seed);
        let mut plan = vec![(5usize, SpawnKind::Goblin)];
        spawn_region(&area, 1, &mut rng, &mut plan);
        assert_eq!(plan[0], (5, SpawnKind::Goblin));
        assert!(plan.len() - 1 <= 4);
        let mut tiles: Vec<usize> = plan.iter().skip(1).map(|s| s.0).collect();
        assert!(tiles.iter().all(|t| area.contains(t)));
        let planned = tiles.len();
        tiles.sort();
        tiles.dedup();
        assert_eq!(tiles.len(), planned);
    }
    let mut rng = rltk::RandomNumberGenerator::seeded(4);
    let mut plan = Vec::new();
    spawn_region(&vec![9, 8], 50, &mut rng, &mut plan);
    assert_eq!(plan.len(), 2);
    spawn_region(&Vec::new(), 50, &mut rng, &mut plan);
    assert_eq!(plan.len(), 2);
    spawn_region(&area, -10, &mut rng, &mut plan);
    assert_eq!(plan.len(), 2);
}

#[test]
fn each_kind_starts_with_its_attributes() {
    let mut map = TileMap::new(10, 10, 1);
    floor_at(&mut map, &[(1, 1)]);
    let mut w = World::new(map);
    let at = Position { x: 1, y: 1 };
    let goblin = spawn_entity(&mut w, at, SpawnKind::Goblin);
    assert_eq!(goblin, 0);
    assert_eq!(w.names.get(goblin).unwrap().name, "Goblin");
    assert_eq!(w.positions.get(goblin), Some(&at));
    assert_eq!(w.combat_stats.get(goblin), Some(&CombatStats { max_hp: 16, hp: 16, defense: 1, power: 4 }));
    assert!(w.blocks_tile.has(goblin) && !w.items.has(goblin));
    let orc = spawn_entity(&mut w, at, SpawnKind::Orc);
    assert_eq!(w.names.get(orc).unwrap().name, "Orc");
    assert!(w.combat_stats.has(orc) && w.blocks_tile.has(orc));
    let potion = spawn_entity(&mut w, at, SpawnKind::HealthPotion);
    assert_eq!(w.names.get(potion).unwrap().name, "Health Potion");
    assert!(w.items.has(potion) && w.consumable.has(potion) && !w.combat_stats.has(potion));
    assert_eq!(w.provides_healing.get(potion), Some(&ProvidesHealing { heal_amount: 8 }));
    let fireball = spawn_entity(&mut w, at, SpawnKind::FireballScroll);
    assert_eq!(w.names.get(fireball).unwrap().name, "Fireball Scroll");
    assert_eq!(w.inflicts_damage.get(fireball), Some(&InflictsDamage { damage: 20 }));
    assert_eq!(w.area_of_effect.get(fireball), Some(&AreaOfEffect { radius: 3 }));
    assert!(w.consumable.has(fireball));
    let confusion = spawn_entity(&mut w, at, SpawnKind::ConfusionScroll);
    assert_eq!(w.names.get(confusion).unwrap().name, "Confusion Scroll");
    assert_eq!(w.confusion.get(confusion), Some(&Confusion { turns: 4 }));
    let missile = spawn_entity(&mut w, at, SpawnKind::MagicMissileScroll);
    assert_eq!(w.names.get(missile).unwrap().name, "Magic Missile Scroll");
    assert_eq!(w.inflicts_damage.get(missile), Some(&InflictsDamage { damage: 8 }));
    assert!(!w.area_of_effect.has(missile));
    let dagger = spawn_entity(&mut w, at, SpawnKind::Dagger);
    assert_eq!(w.names.get(dagger).unwrap().name, "Dagger");
    assert_eq!(w.equippable.get(dagger), Some(&Equippable { slot: EquipmentSlot::Melee }));
    assert!(!w.consumable.has(dagger));
    let shield = spawn_entity(&mut w, at, SpawnKind::Shield);
    assert_eq!(w.names.get(shield).unwrap().name, "Shield");
    assert_eq!(w.equippable.get(shield), Some(&Equippable { slot: EquipmentSlot::Shield }));
    let sword = spawn_entity(&mut w, at, SpawnKind::Longsword);
    assert_eq!(w.names.get(sword).unwrap().name, "Longsword");
    assert_eq!(w.equippable.get(sword), Some(&Equippable { slot: EquipmentSlot::Melee }));
    let tower = spawn_entity(&mut w, at, SpawnKind::TowerShield);
    assert_eq!(w.names.get(tower).unwrap().name, "Tower Shield");
    assert_eq!(w.equippable.get(tower), Some(&Equippable { slot: EquipmentSlot::Shield }));
    assert_eq!(w.count(), 10);
    assert!(w.is_well_formed());
}

#[test]
fn a_rect_is_made_from_a_corner_and_a_size() {
    assert_eq!(Rect::new(3, 4, 5, 6), Rect { x1: 3, x2: 8, y1: 4, y2: 10 });
}

#[test]
fn partition_keeps_rooms_apart_and_off_the_edge() {
    for seed in 10..14 {
        let mut rng = rltk::RandomNumberGenerator::seeded(seed);
        let mut builder = BspDungeonBuilder::with_size(60, 40, 1);
        assert_eq!(builder.build_map(&mut rng), Ok(()));
        let map = &builder.draft.map;
        assert!(map.rooms.len() > 1);
        for (i, a) in map.rooms.iter().enumerate() {
            assert!(4 <= a.x2 - a.x1 && a.x2 - a.x1 <= 10);
            assert!(4 <= a.y2 - a.y1 && a.y2 - a.y1 <= 10);
            for b in map.rooms.iter().skip(i + 1) {
                assert!(!a.intersect(b));
            }
        }
        let floors = map.tiles.iter().filter(|t| **t == TileType::Floor).count();
        let in_rooms: usize =
            map.rooms.iter().map(|r| ((r.x2 - r.x1) * (r.y2 - r.y1)) as usize).sum();
        assert!(floors > in_rooms);
    }
}

#[test]
fn a_room_is_carved_only_where_rock_surrounds_it() {
    let mut builder = BspDungeonBuilder::with_size(30, 30, 1);
    assert!(builder.is_possible(5, 5, 10, 10));
    assert!(!builder.is_possible(2, 5, 7, 10));
    assert!(!builder.is_possible(5, 2, 10, 7));
    assert!(!builder.is_possible(5, 5, 6, 10));
    assert!(builder.is_possible(5, 5, 26, 26));
    assert!(!builder.is_possible(5, 5, 27, 10));
    assert!(!builder.is_possible(5, 5, 10, 27));
    assert!(builder.try_room(5, 5, 10, 10));
    assert_eq!(builder.draft.map.rooms, vec![Rect { x1: 5, x2: 10, y1: 5, y2: 10 }]);
    rooms_are_open(&builder.draft.map);
    let floors = builder.draft.map.tiles.iter().filter(|t| **t == TileType::Floor).count();
    assert_eq!(floors, 25);
    assert!(!builder.is_possible(12, 5, 16, 10));
    assert!(!builder.try_room(12, 5, 16, 10));
    assert_eq!(builder.draft.map.rooms.len(), 1);
    assert!(builder.is_possible(13, 5, 17, 10));
    assert!(!builder.is_possible(5, 12, 10, 16));
    assert!(builder.try_room(5, 13, 10, 17));
    assert_eq!(builder.draft.map.rooms.len(), 2);
}

#[test]
fn deep_levels_always_get_spawns() {
    let (builder, _) = surveyed(3, builder_for_roll(1, 4));
    let draft = match &builder {
        MapBuilder::Simple(b) => &b.draft,
        MapBuilder::Bsp(b) => &b.draft,
    };
    assert!(!draft.spawn_list.is_empty());
    let area: Vec<usize> = (0..50).collect();
    for seed in 0..20 {
        let mut rng = rltk::RandomNumberGenerator::seeded(seed);
        let mut plan = Vec::new();
        spawn_region(&area, 4, &mut rng, &mut plan);
        assert!(1 <= plan.len() && plan.len() <= 7);
        plan.clear();
        spawn_region(&area, 10, &mut rng, &mut plan);
        assert!(7 <= plan.len() && plan.len() <= 13);
    }
}

#[test]
fn snapshots_are_kept_in_order() {
    let mut builder = builder_for_roll(2, 1);
    builder.take_snapshot();
    let mut rng = rltk::RandomNumberGenerator::seeded(8);
    assert_eq!(builder.build_map(&mut rng), Ok(()));
    let history = builder.get_snapshot_history();
    assert!(history.len() > 1);
    assert!(history[0].tiles.iter().all(|t| *t == TileType::Wall));
    assert_eq!(history[history.len() - 1].tiles, builder.get_map().tiles);
    let mut floors_before = 0;
    for snapshot in history.iter() {
        let floors = snapshot.tiles.iter().filter(|t| **t == TileType::Floor).count();
        assert!(floors >= floors_before);
        floors_before = floors;
    }
    builder.take_snapshot();
    assert_eq!(builder.get_snapshot_history().len(), history.len() + 1);
}
