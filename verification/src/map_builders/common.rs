//! Carving and surveying steps that every strategy shares.
use vstd::prelude::*;
use std::collections::HashMap;
use crate::dice::roll_dice;
use crate::map::{cell_index, TileMap, TileMapView, Rect, TileType};

verus! {

/// Whether tile `i` is one that a horizontal run from `x1` to `x2` along row
/// `y` opens. The first tile of the map is never opened.
pub open spec fn on_horizontal_run(width: int, x1: int, x2: int, y: int, i: int) -> bool {
    let x = i - y * width;
    0 < i && (x1 <= x <= x2 || x2 <= x <= x1)
}

/// Whether tile `i` is one that a vertical run from `y1` to `y2` along column
/// `x` opens. The first tile of the map is never opened.
pub open spec fn on_vertical_run(width: int, y1: int, y2: int, x: int, i: int) -> bool {
    0 < i && exists|y: int| (y1 <= y <= y2 || y2 <= y <= y1) && #[trigger] cell_index(width, x, y) == i
}

/// Whether tile `i` is a cell of the room carved from `room`.
pub open spec fn in_room(width: int, room: Rect, i: int) -> bool {
    exists|x: int, y: int| room.holds(x, y) && #[trigger] cell_index(width, x, y) == i
}

/// The level with every tile that `dug` selects turned to floor.
pub open spec fn carved(m: TileMapView, dug: spec_fn(int) -> bool) -> TileMapView {
    TileMapView {
        tiles: Seq::new(m.tiles.len(), |i: int| if dug(i) { TileType::Floor } else { m.tiles[i] }),
        ..m
    }
}

/// The level with the room carved.
pub open spec fn with_room(m: TileMapView, room: Rect) -> TileMapView {
    carved(m, |i: int| in_room(m.width, room, i))
}

/// The level with the horizontal run opened.
pub open spec fn with_horizontal_tunnel(m: TileMapView, x1: int, x2: int, y: int) -> TileMapView {
    carved(m, |i: int| on_horizontal_run(m.width, x1, x2, y, i))
}

/// The level with the vertical run opened.
pub open spec fn with_vertical_tunnel(m: TileMapView, y1: int, y2: int, x: int) -> TileMapView {
    carved(m, |i: int| on_vertical_run(m.width, y1, y2, x, i))
}

/// Whether every cell of the room carved from `room` has a tile to carve.
pub open spec fn room_fits(m: TileMapView, room: Rect) -> bool {
    forall|x: int, y: int| room.holds(x, y) ==> 0 <= #[trigger] cell_index(m.width, x, y) < m.tiles.len()
}

/// Turns every cell of the room to floor.
pub fn apply_room_to_map(map: &mut TileMap, room: &Rect)
    requires
        old(map).wf(),
        room_fits(old(map)@, *room),
    ensures
        final(map).wf(),
        final(map)@ == with_room(old(map)@, *room),
{
    let ghost width = map.width as int;
    let ghost before = map@.tiles;
    let count: usize = map.tiles.len();
    let mut y: i64 = room.y1 as i64 + 1;
    while y <= room.y2 as i64
        invariant
            room.y1 < y <= room.y2 + 1 || (y == room.y1 + 1 && room.y1 >= room.y2),
            width == map.width,
            width == old(map)@.width,
            count == before.len(),
            before == old(map)@.tiles,
            room_fits(old(map)@, *room),
            map.tiles@.len() == before.len(),
            *map == (TileMap { tiles: map.tiles, ..*old(map) }),
            forall|i: int| 0 <= i < before.len() ==> map.tiles@[i] == (if exists|cx: int, cy: int|
                room.holds(cx, cy) && cy < y && #[trigger] cell_index(width, cx, cy) == i {
                TileType::Floor
            } else {
                before[i]
            }),
        decreases room.y2 + 1 - y,
    {
        let mut x: i64 = room.x1 as i64 + 1;
        while x <= room.x2 as i64
            invariant
                room.x1 < x <= room.x2 + 1 || (x == room.x1 + 1 && room.x1 >= room.x2),
                room.y1 < y <= room.y2,
                width == map.width,
                width == old(map)@.width,
                count == before.len(),
                before == old(map)@.tiles,
                room_fits(old(map)@, *room),
                map.tiles@.len() == before.len(),
                *map == (TileMap { tiles: map.tiles, ..*old(map) }),
                forall|i: int| 0 <= i < before.len() ==> map.tiles@[i] == (if exists|cx: int, cy: int|
                    room.holds(cx, cy) && (cy < y || (cy == y && cx < x)) && #[trigger] cell_index(
                        width,
                        cx,
                        cy,
                    ) == i {
                    TileType::Floor
                } else {
                    before[i]
                }),
            decreases room.x2 + 1 - x,
        {
            assert(room.holds(x as int, y as int));
            assert(0 <= cell_index(width, x as int, y as int) < before.len());
            assert(-0x4000_0000_0000_0000 <= y * map.width <= 0x4000_0000_0000_0000)
                by (nonlinear_arith)
                requires
                    -0x8000_0000 <= y <= 0x7fff_ffff,
                    -0x8000_0000 <= map.width <= 0x7fff_ffff,
            ;
            let idx: usize = (y * map.width as i64 + x) as usize;
            let ghost prior = map.tiles@;
            map.tiles[idx] = TileType::Floor;
            assert forall|i: int| 0 <= i < before.len() implies map.tiles@[i] == (if exists|
                cx: int,
                cy: int,
            |
                room.holds(cx, cy) && (cy < y || (cy == y && cx < x + 1)) && #[trigger] cell_index(
                    width,
                    cx,
                    cy,
                ) == i {
                TileType::Floor
            } else {
                before[i]
            }) by {
                if i == idx {
                    assert(room.holds(x as int, y as int) && cell_index(width, x as int, y as int) == i);
                } else {
                    assert(map.tiles@[i] == prior[i]);
                }
            }
            x = x + 1;
        }
        y = y + 1;
    }
    proof {
        let after = with_room(old(map)@, *room);
        assert forall|i: int| 0 <= i < before.len() implies map.tiles@[i] == after.tiles[i] by {
            if in_room(width, *room, i) {
                let (cx, cy) = choose|cx: int, cy: int|
                    room.holds(cx, cy) && #[trigger] cell_index(width, cx, cy) == i;
                assert(room.holds(cx, cy) && cy < y && cell_index(width, cx, cy) == i);
            }
        }
        assert(map@.tiles =~= after.tiles);
    }
}

/// Opens the tiles of row `y` from column `x1` to column `x2`, whichever is
/// the smaller, leaving out whatever falls outside the map.
pub fn apply_horizontal_tunnel(map: &mut TileMap, x1: i32, x2: i32, y: i32)
    requires
        old(map).wf(),
    ensures
        final(map).wf(),
        final(map)@ == with_horizontal_tunnel(old(map)@, x1 as int, x2 as int, y as int),
{
    let lo: i64 = if x1 <= x2 { x1 as i64 } else { x2 as i64 };
    let hi: i64 = if x1 <= x2 { x2 as i64 } else { x1 as i64 };
    let ghost width = map.width as int;
    let ghost before = map@.tiles;
    assert(-0x4000_0000_0000_0000 <= y * map.width <= 0x4000_0000_0000_0000) by (nonlinear_arith)
        requires
            -0x8000_0000 <= y <= 0x7fff_ffff,
            -0x8000_0000 <= map.width <= 0x7fff_ffff,
    ;
    let row: i64 = y as i64 * map.width as i64;
    let mut x: i64 = lo;
    while x <= hi
        invariant
            lo <= x <= hi + 1,
            -0x8000_0000 <= lo <= hi <= 0x7fff_ffff,
            row == y * width,
            -0x4000_0000_0000_0000 <= row <= 0x4000_0000_0000_0000,
            width == map.width,
            before == old(map)@.tiles,
            map.tiles@.len() == before.len(),
            *map == (TileMap { tiles: map.tiles, ..*old(map) }),
            forall|i: int| 0 <= i < before.len() ==> map.tiles@[i] == (if 0 < i && lo <= i - row < x {
                TileType::Floor
            } else {
                before[i]
            }),
        decreases hi + 1 - x,
    {
        let idx: i64 = row + x;
        if idx > 0 && (idx as u64) < map.tiles.len() as u64 {
            map.tiles[idx as usize] = TileType::Floor;
        }
        x = x + 1;
    }
    assert(map@.tiles =~= with_horizontal_tunnel(old(map)@, x1 as int, x2 as int, y as int).tiles);
}

/// Opens the tiles of column `x` from row `y1` to row `y2`, whichever is the
/// smaller, leaving out whatever falls outside the map.
pub fn apply_vertical_tunnel(map: &mut TileMap, y1: i32, y2: i32, x: i32)
    requires
        old(map).wf(),
    ensures
        final(map).wf(),
        final(map)@ == with_vertical_tunnel(old(map)@, y1 as int, y2 as int, x as int),
{
    let lo: i64 = if y1 <= y2 { y1 as i64 } else { y2 as i64 };
    let hi: i64 = if y1 <= y2 { y2 as i64 } else { y1 as i64 };
    let ghost width = map.width as int;
    let ghost before = map@.tiles;
    let mut y: i64 = lo;
    while y <= hi
        invariant
            lo <= y <= hi + 1,
            -0x8000_0000 <= lo <= hi <= 0x7fff_ffff,
            width == map.width,
            before == old(map)@.tiles,
            map.tiles@.len() == before.len(),
            *map == (TileMap { tiles: map.tiles, ..*old(map) }),
            forall|i: int| 0 <= i < before.len() ==> map.tiles@[i] == (if 0 < i && exists|cy: int|
                lo <= cy < y && #[trigger] cell_index(width, x as int, cy) == i {
                TileType::Floor
            } else {
                before[i]
            }),
        decreases hi + 1 - y,
    {
        assert(-0x4000_0000_0000_0000 <= y * map.width <= 0x4000_0000_0000_0000)
            by (nonlinear_arith)
            requires
                -0x8000_0000 <= y <= 0x7fff_ffff,
                -0x8000_0000 <= map.width <= 0x7fff_ffff,
        ;
        let idx: i64 = y * map.width as i64 + x as i64;
        assert(idx == cell_index(width, x as int, y as int));
        if idx > 0 && (idx as u64) < map.tiles.len() as u64 {
            map.tiles[idx as usize] = TileType::Floor;
        }
        y = y + 1;
    }
    proof {
        let after = with_vertical_tunnel(old(map)@, y1 as int, y2 as int, x as int);
        assert forall|i: int| 0 <= i < before.len() implies map.tiles@[i] == after.tiles[i] by {
            if on_vertical_run(width, y1 as int, y2 as int, x as int, i) {
                let cy = choose|cy: int|
                    (y1 <= cy <= y2 || y2 <= cy <= y1) && #[trigger] cell_index(width, x as int, cy) == i;
                assert(lo <= cy < y && cell_index(width, x as int, cy) == i);
            }
        }
        assert(map@.tiles =~= after.tiles);
    }
}

/// Whether tile `i` is a floor tile that the distance field reaches.
pub open spec fn reached(m: TileMapView, distances: Seq<Option<u32>>, i: int) -> bool {
    0 <= i < m.tiles.len() && m.tiles[i] == TileType::Floor && distances[i].is_some()
}

/// How far from the start the distance field has tile `i`.
pub open spec fn far(distances: Seq<Option<u32>>, i: int) -> int {
    distances[i].unwrap() as int
}

/// Whether `exit` is the floor tile farthest from the start: it is a floor
/// tile that the field reaches, no such tile lies farther, and every such
/// tile before it lies nearer. Only where the field reaches no floor tile
/// at all is it the first tile of the map.
pub open spec fn is_most_distant(m: TileMapView, distances: Seq<Option<u32>>, exit: int) -> bool {
    if exists|i: int| reached(m, distances, i) {
        &&& reached(m, distances, exit)
        &&& forall|i: int| #[trigger]
            reached(m, distances, i) ==> far(distances, i) <= far(distances, exit)
        &&& forall|i: int|
            0 <= i < exit && #[trigger] reached(m, distances, i) ==> far(distances, i) < far(
                distances,
                exit,
            )
    } else {
        exit == 0
    }
}

/// The level with every floor tile that cannot be reached turned to wall.
pub open spec fn pruned(m: TileMapView, distances: Seq<Option<u32>>) -> TileMapView {
    TileMapView {
        tiles: Seq::new(
            m.tiles.len(),
            |i: int|
                if m.tiles[i] == TileType::Floor && distances[i].is_none() {
                    TileType::Wall
                } else {
                    m.tiles[i]
                },
        ),
        ..m
    }
}

/// Marks the walls of the level as blocked, as whoever measured the
/// distances had to see them; then walls up every floor tile that the
/// distance field does not reach, and returns the floor tile farthest from
/// where the field starts. The field holds, for each tile, its distance
/// from the start, or nothing where the tile cannot be reached; larger
/// numbers are farther. The start itself is the exit where nothing else
/// can be reached.
pub fn remove_unreachable_areas_get_most_distant(map: &mut TileMap, distances: &Vec<Option<u32>>) -> (exit:
    usize)
    requires
        old(map).wf(),
        distances@.len() == old(map)@.tiles.len(),
    ensures
        final(map).wf(),
        final(map)@ == pruned(old(map)@.with_walls_blocked(), distances@),
        forall|i: int|
            0 <= i < final(map)@.tiles.len() && #[trigger] final(map)@.tiles[i] == TileType::Floor
                ==> distances@[i].is_some(),
        is_most_distant(final(map)@, distances@, exit as int),
        is_most_distant(old(map)@, distances@, exit as int),
{
    map.populate_blocked();
    let ghost start = map@;
    let ghost marked = *map;
    let count = map.tiles.len();
    let mut exit: usize = 0;
    let mut farthest: u32 = 0;
    let mut found = false;
    let mut i: usize = 0;
    while i < count
        invariant
            i <= count,
            count == start.tiles.len(),
            count == distances@.len(),
            start == marked@,
            start == old(map)@.with_walls_blocked(),
            map.tiles@.len() == count,
            *map == (TileMap { tiles: map.tiles, ..marked }),
            forall|j: int| 0 <= j < i ==> (#[trigger] map.tiles@[j]) == pruned(start, distances@).tiles[j],
            forall|j: int| i <= j < count ==> (#[trigger] map.tiles@[j]) == start.tiles[j],
            !found ==> exit == 0,
            !found ==> forall|j: int| 0 <= j < i ==> !#[trigger] reached(start, distances@, j),
            found ==> exit < i && reached(start, distances@, exit as int) && farthest == far(
                distances@,
                exit as int,
            ),
            found ==> forall|j: int|
                0 <= j < i && #[trigger] reached(start, distances@, j) ==> far(distances@, j)
                    <= farthest,
            found ==> forall|j: int|
                0 <= j < exit && #[trigger] reached(start, distances@, j) ==> far(distances@, j)
                    < farthest,
        decreases count - i,
    {
        if map.tiles[i] == TileType::Floor {
            match distances[i] {
                None => {
                    map.tiles[i] = TileType::Wall;
                },
                Some(steps) => {
                    assert(reached(start, distances@, i as int));
                    if !found || steps > farthest {
                        exit = i;
                        farthest = steps;
                        found = true;
                    }
                },
            }
        }
        i = i + 1;
    }
    proof {
        assert(map@.tiles =~= pruned(start, distances@).tiles);
        assert forall|j: int| reached(map@, distances@, j) == reached(start, distances@, j) by {}
        assert forall|j: int| reached(old(map)@, distances@, j) == reached(start, distances@, j) by {}
        if found {
            assert(reached(map@, distances@, exit as int));
            assert(reached(old(map)@, distances@, exit as int));
        }
        assert forall|j: int| #[trigger]
            reached(map@, distances@, j) && found implies far(distances@, j) <= far(
            distances@,
            exit as int,
        ) by {
            assert(reached(start, distances@, j));
        }
        assert forall|j: int| #[trigger]
            reached(old(map)@, distances@, j) && found implies far(distances@, j) <= far(
            distances@,
            exit as int,
        ) by {
            assert(reached(start, distances@, j));
        }
        assert forall|j: int|
            0 <= j < exit && #[trigger] reached(map@, distances@, j) && found implies far(distances@, j)
            < far(distances@, exit as int) by {
            assert(reached(start, distances@, j));
        }
        assert forall|j: int|
            0 <= j < exit && #[trigger] reached(old(map)@, distances@, j) && found implies far(
            distances@,
            j,
        ) < far(distances@, exit as int) by {
            assert(reached(start, distances@, j));
        }
        if !found {
            assert forall|j: int| !reached(map@, distances@, j) by {
                if reached(map@, distances@, j) {
                    assert(reached(start, distances@, j));
                }
            }
            assert forall|j: int| !reached(old(map)@, distances@, j) by {
                if reached(old(map)@, distances@, j) {
                    assert(reached(start, distances@, j));
                }
            }
        }
    }
    exit
}

/// Whether tile `i` is a floor tile that carries the label.
pub open spec fn in_region(m: TileMapView, labels: Seq<i32>, label: i32, i: int) -> bool {
    m.tiles[i] == TileType::Floor && labels[i] == label
}

/// The tiles of a region among the first `k` tiles, in rising order.
pub open spec fn region_upto(m: TileMapView, labels: Seq<i32>, label: i32, k: nat) -> Seq<usize>
    decreases k,
{
    if k == 0 {
        Seq::empty()
    } else if in_region(m, labels, label, k - 1) {
        region_upto(m, labels, label, (k - 1) as nat).push((k - 1) as usize)
    } else {
        region_upto(m, labels, label, (k - 1) as nat)
    }
}

/// The spawn region of a label: the floor tiles that carry it, in rising
/// order.
pub open spec fn region(m: TileMapView, labels: Seq<i32>, label: i32) -> Seq<usize> {
    region_upto(m, labels, label, m.tiles.len())
}

/// A tile of a region among the first `k` tiles is listed in the region.
pub proof fn lemma_region_lists(m: TileMapView, labels: Seq<i32>, label: i32, k: nat, tile: int)
    requires
        0 <= tile < k <= usize::MAX,
        in_region(m, labels, label, tile),
    ensures
        region_upto(m, labels, label, k).contains(tile as usize),
    decreases k,
{
    let now = region_upto(m, labels, label, k);
    if tile < k - 1 {
        lemma_region_lists(m, labels, label, (k - 1) as nat, tile);
        let before = region_upto(m, labels, label, (k - 1) as nat);
        let at = choose|at: int| 0 <= at < before.len() && before[at] == tile as usize;
        assert(now[at] == tile as usize);
    } else {
        assert(now[now.len() - 1] == tile as usize);
    }
}

/// Draws the seed of the noise that labels the tiles: one throw of a die
/// with 65536 faces.
pub fn roll_noise_seed(rng: &mut rltk::RandomNumberGenerator) -> (seed: u64)
    ensures
        1 <= seed <= 65536,
{
    roll_dice(rng, 1, 65536) as u64
}

/// Groups the floor tiles of the map by their label. `labels` holds one
/// label for each tile of the map. A label has an entry where at least one
/// floor tile carries it, and the entry lists those tiles in rising order:
/// every floor tile is in the list of its label, and in no other.
pub fn generate_voronoi_spawn_regions(map: &TileMap, labels: &Vec<i32>) -> (noise_areas: HashMap<
    i32,
    Vec<usize>,
>)
    requires
        map.wf(),
        labels@.len() == map@.tiles.len(),
    ensures
        forall|label: i32| #[trigger]
            noise_areas@.contains_key(label) <==> region(map@, labels@, label).len() > 0,
        forall|label: i32| #[trigger]
            noise_areas@.contains_key(label) ==> noise_areas@[label]@ == region(map@, labels@, label),
        forall|i: int|
            0 <= i < map@.tiles.len() && #[trigger] map@.tiles[i] == TileType::Floor ==> {
                &&& noise_areas@.contains_key(labels@[i])
                &&& noise_areas@[labels@[i]]@.contains(i as usize)
            },
{
    broadcast use vstd::std_specs::hash::group_hash_axioms;

    let mut noise_areas: HashMap<i32, Vec<usize>> = HashMap::new();
    let count = map.tiles.len();
    let mut i: usize = 0;
    while i < count
        invariant
            i <= count,
            count == map@.tiles.len(),
            count == labels@.len(),
            map.wf(),
            forall|label: i32| #[trigger]
                noise_areas@.contains_key(label) <==> region_upto(map@, labels@, label, i as nat).len()
                    > 0,
            forall|label: i32| #[trigger]
                noise_areas@.contains_key(label) ==> noise_areas@[label]@ == region_upto(
                    map@,
                    labels@,
                    label,
                    i as nat,
                ),
        decreases count - i,
    {
        let ghost before = noise_areas@;
        if map.tiles[i] == TileType::Floor {
            let label = labels[i];
            let mut area = match noise_areas.remove(&label) {
                Some(area) => area,
                None => Vec::new(),
            };
            assert(area@ == region_upto(map@, labels@, label, i as nat));
            area.push(i);
            noise_areas.insert(label, area);
            assert(in_region(map@, labels@, label, i as int));
        }
        proof {
            assert forall|label: i32| #[trigger]
                noise_areas@.contains_key(label) <==> region_upto(
                    map@,
                    labels@,
                    label,
                    (i + 1) as nat,
                ).len() > 0 by {
                assert(before.contains_key(label) <==> region_upto(map@, labels@, label, i as nat).len()
                    > 0);
            }
            assert forall|label: i32| #[trigger] noise_areas@.contains_key(label) implies noise_areas@[label]@
                == region_upto(map@, labels@, label, (i + 1) as nat) by {
                if before.contains_key(label) {
                    assert(before[label]@ == region_upto(map@, labels@, label, i as nat));
                }
            }
        }
        i = i + 1;
    }
    proof {
        assert forall|t: int|
            0 <= t < map@.tiles.len() && #[trigger] map@.tiles[t] == TileType::Floor implies {
            &&& noise_areas@.contains_key(labels@[t])
            &&& noise_areas@[labels@[t]]@.contains(t as usize)
        } by {
            let label = labels@[t];
            lemma_region_lists(map@, labels@, label, count as nat, t);
            let listed = region(map@, labels@, label);
            assert(listed.contains(t as usize));
            let at = choose|at: int| 0 <= at < listed.len() && listed[at] == t as usize;
            assert(listed.len() > 0);
            assert(noise_areas@.contains_key(label));
            assert(noise_areas@[label]@ == listed);
        }
    }
    noise_areas
}

} // verus!
