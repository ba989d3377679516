use rusty_roguelike::map::{Rect, TileMap, TileType};
use rusty_roguelike::map_builders::common::{
    apply_horizontal_tunnel, apply_room_to_map, apply_vertical_tunnel,
};

fn floor_count(map: &TileMap) -> usize {
    map.tiles.iter().filter(|t| **t == TileType::Floor).count()
}

#[test]
fn new_map_is_solid_rock() {
    let map = TileMap::new(8, 5, 1);
    assert_eq!(map.tiles.len(), 40);
    assert_eq!(floor_count(&map), 0);
    assert_eq!(map.blocked.len(), 40);
    assert_eq!(map.tile_content.len(), 40);
}

#[test]
fn room_leaves_a_wall_along_its_top_and_left() {
    let mut map = TileMap::new(10, 10, 1);
    let room = Rect::new(2, 3, 3, 2);
    apply_room_to_map(&mut map, &room);
    for y in 0..10 {
        for x in 0..10 {
            let inside = 2 < x && x <= 5 && 3 < y && y <= 5;
            let expected = if inside { TileType::Floor } else { TileType::Wall };
            assert_eq!(map.tiles[map.xy_idx(x, y)], expected);
        }
    }
    assert_eq!(floor_count(&map), 6);
}

#[test]
fn horizontal_tunnel_runs_either_way() {
    let mut a = TileMap::new(10, 4, 1);
    let mut b = TileMap::new(10, 4, 1);
    apply_horizontal_tunnel(&mut a, 2, 6, 1);
    apply_horizontal_tunnel(&mut b, 6, 2, 1);
    assert_eq!(a.tiles, b.tiles);
    assert_eq!(floor_count(&a), 5);
    for x in 2..=6 {
        assert_eq!(a.tiles[a.xy_idx(x, 1)], TileType::Floor);
    }
}

#[test]
fn tunnels_never_open_the_first_tile() {
    let mut map = TileMap::new(6, 6, 1);
    apply_horizontal_tunnel(&mut map, 0, 3, 0);
    assert_eq!(map.tiles[0], TileType::Wall);
    assert_eq!(floor_count(&map), 3);
    apply_vertical_tunnel(&mut map, 0, 3, 0);
    assert_eq!(map.tiles[0], TileType::Wall);
    assert_eq!(floor_count(&map), 6);
}

#[test]
fn vertical_tunnel_stops_at_the_end_of_the_map() {
    let mut map = TileMap::new(5, 4, 1);
    apply_vertical_tunnel(&mut map, 2, 9, 1);
    assert_eq!(map.tiles[map.xy_idx(1, 2)], TileType::Floor);
    assert_eq!(map.tiles[map.xy_idx(1, 3)], TileType::Floor);
    assert_eq!(floor_count(&map), 2);
}

#[test]
fn rect_center_and_overlap() {
    let a = Rect::new(0, 0, 10, 6);
    assert_eq!(a.center(), (5, 3));
    let b = Rect::new(10, 6, 2, 2);
    let c = Rect::new(11, 7, 2, 2);
    assert!(a.intersect(&b));
    assert!(!a.intersect(&c));
    let d = Rect::new(-5, -3, 2, 0);
    assert_eq!(d.center(), (-4, -3));
}

#[test]
fn a_map_knows_whether_it_is_in_order() {
    let mut map = TileMap::new(4, 3, 2);
    assert!(map.is_well_formed());
    map.blocked.pop();
    assert!(!map.is_well_formed());
    map.blocked.push(false);
    map.width = 5;
    assert!(!map.is_well_formed());
    map.width = -4;
    assert!(!map.is_well_formed());
    assert!(TileMap::new(0, 7, 1).is_well_formed());
}

#[test]
fn cells_are_numbered_row_by_row() {
    let map = TileMap::new(7, 3, 1);
    assert_eq!(map.xy_idx(0, 0), 0);
    assert_eq!(map.xy_idx(6, 0), 6);
    assert_eq!(map.xy_idx(0, 1), 7);
    assert_eq!(map.xy_idx(3, 2), 17);
    assert!(map.in_bounds(6, 2));
    assert!(!map.in_bounds(7, 2) && !map.in_bounds(6, 3) && !map.in_bounds(-1, 0) && !map.in_bounds(0, -1));
}

#[test]
fn walls_block_and_the_index_can_be_cleared() {
    let mut map = TileMap::new(6, 6, 1);
    apply_room_to_map(&mut map, &Rect::new(1, 1, 2, 2));
    map.tile_content[3].push(9);
    let inside = map.xy_idx(2, 2);
    map.blocked[inside] = true;
    map.populate_blocked();
    for (i, tile) in map.tiles.iter().enumerate() {
        assert_eq!(map.blocked[i], *tile == TileType::Wall);
    }
    assert_eq!(map.tile_content[3], vec![9]);
    map.clear_content_index();
    assert!(map.tile_content.iter().all(|cell| cell.is_empty()));
    assert_eq!(map.tile_content.len(), 36);
}

#[test]
fn a_duplicate_holds_the_same_and_is_its_own() {
    let mut map = TileMap::new(6, 6, 3);
    apply_room_to_map(&mut map, &Rect::new(1, 1, 2, 2));
    map.rooms.push(Rect::new(1, 1, 2, 2));
    map.tile_content[8].push(4);
    map.revealed_tiles[8] = true;
    map.visible_tiles[9] = true;
    let mut copy = map.duplicate();
    assert_eq!(copy.tiles, map.tiles);
    assert_eq!(copy.rooms, map.rooms);
    assert_eq!((copy.width, copy.height, copy.depth), (6, 6, 3));
    assert_eq!(copy.revealed_tiles, map.revealed_tiles);
    assert_eq!(copy.visible_tiles, map.visible_tiles);
    assert_eq!(copy.blocked, map.blocked);
    assert_eq!(copy.tile_content, map.tile_content);
    copy.tiles[0] = TileType::Floor;
    assert_eq!(map.tiles[0], TileType::Wall);
}
