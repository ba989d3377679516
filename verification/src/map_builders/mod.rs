//! Strategies that carve a level out of solid rock, and what they share:
//! the draft of the level, its survey and its spawn plan.
//!
//! A level is made in three steps. `build_map` carves rooms and corridors.
//! The caller then measures, on the carved map, how far each tile lies from
//! the starting position, and labels the tiles by noise. `survey` takes both:
//! it walls up what cannot be reached, finds the exit and plans the spawns.
use vstd::prelude::*;
use crate::components::Position;
use crate::map::{cell_index, Rect, TileMap, TileMapView, TileType, MAPHEIGHT, MAPWIDTH};
use crate::map_builders::bsp_dungeon::BspDungeonBuilder;
use crate::map_builders::common::{
    carved, generate_voronoi_spawn_regions, in_region, is_most_distant,
    on_horizontal_run, on_vertical_run, pruned, region, region_upto,
    remove_unreachable_areas_get_most_distant,
};
use crate::map_builders::simple_map::SimpleMapBuilder;
use crate::dice::{fresh_rng, roll_dice};
use crate::spawner::{spawn_bound, spawn_entity, spawn_region, spawned, SpawnKind};
use crate::world::{World, WorldView};

pub mod bsp_dungeon;
pub mod common;
pub mod simple_map;

verus! {

/// Why no level was made.
#[derive(PartialEq, Eq, Structural, Clone, Copy, Debug)]
pub enum GenerationError {
    /// Every attempt to place a room failed.
    NoRoom,
}

/// A level in the making.
pub struct Draft {
    pub map: TileMap,
    pub starting_position: Position,
    pub depth: i32,
    pub history: Vec<TileMap>,
    pub exit: usize,
    pub spawn_list: Vec<(usize, SpawnKind)>,
}

/// What a [`Draft`] holds, as mathematical values.
pub struct DraftView {
    pub map: TileMapView,
    pub starting_position: Position,
    pub depth: int,
    pub history: Seq<TileMapView>,
    pub exit: int,
    pub spawn_list: Seq<(usize, SpawnKind)>,
}

impl View for Draft {
    type V = DraftView;

    open spec fn view(&self) -> DraftView {
        DraftView {
            map: self.map@,
            starting_position: self.starting_position,
            depth: self.depth as int,
            history: self.history@.map_values(|m: TileMap| m@),
            exit: self.exit as int,
            spawn_list: self.spawn_list@,
        }
    }
}

/// Whether the room lies on the map off its edge and is large enough to
/// have a middle.
pub open spec fn room_in_level(m: TileMapView, room: Rect) -> bool {
    &&& 0 <= room.x1
    &&& room.x1 + 2 <= room.x2 <= m.width - 2
    &&& 0 <= room.y1
    &&& room.y1 + 2 <= room.y2 <= m.height - 2
}

/// Whether every room of the level lies on the map and is all floor.
pub open spec fn rooms_open(m: TileMapView) -> bool {
    &&& forall|r: int| 0 <= r < m.rooms.len() ==> room_in_level(m, #[trigger] m.rooms[r])
    &&& forall|r: int, x: int, y: int|
        0 <= r < m.rooms.len() && #[trigger] m.rooms[r].holds(x, y) ==> m.tiles[cell_index(
            m.width,
            x,
            y,
        )] == TileType::Floor
}

/// Whether every tile of the horizontal run that the map has is floor.
pub open spec fn run_open_h(m: TileMapView, x1: int, x2: int, y: int) -> bool {
    forall|i: int|
        0 <= i < m.tiles.len() && on_horizontal_run(m.width, x1, x2, y, i) ==> #[trigger] m.tiles[i]
            == TileType::Floor
}

/// Whether every tile of the vertical run that the map has is floor.
pub open spec fn run_open_v(m: TileMapView, y1: int, y2: int, x: int) -> bool {
    forall|i: int|
        0 <= i < m.tiles.len() && on_vertical_run(m.width, y1, y2, x, i) ==> #[trigger] m.tiles[i]
            == TileType::Floor
}

/// Whether a corridor with one bend is open between the two points: along
/// the row of the first and the column of the second, or along the column
/// of the first and the row of the second.
pub open spec fn corridor_open(m: TileMapView, ax: int, ay: int, bx: int, by: int) -> bool {
    (run_open_h(m, ax, bx, ay) && run_open_v(m, ay, by, bx)) || (run_open_v(m, ay, by, ax)
        && run_open_h(m, ax, bx, by))
}

/// Whether the point lies in the rectangle, borders included.
pub open spec fn touches(room: Rect, x: int, y: int) -> bool {
    room.x1 <= x <= room.x2 && room.y1 <= y <= room.y2
}

/// Whether a corridor with one bend is open between a point of the one
/// room and a point of the other.
pub open spec fn linked(m: TileMapView, a: Rect, b: Rect) -> bool {
    exists|ax: int, ay: int, bx: int, by: int|
        touches(a, ax, ay) && touches(b, bx, by) && #[trigger] corridor_open(m, ax, ay, bx, by)
}

/// Whether room `r` is linked to the room listed before it.
pub open spec fn linked_at(m: TileMapView, r: int) -> bool {
    linked(m, m.rooms[r - 1], m.rooms[r])
}

/// Whether each of the first `upto` rooms but the first is linked to the
/// room listed before it.
pub open spec fn rooms_linked(m: TileMapView, upto: int) -> bool {
    forall|r: int| 0 < r < upto ==> #[trigger] linked_at(m, r)
}

/// Carving only ever opens tiles, so a corridor that was open stays open.
pub proof fn lemma_carving_keeps_corridor(
    m: TileMapView,
    dug: spec_fn(int) -> bool,
    ax: int,
    ay: int,
    bx: int,
    by: int,
)
    requires
        corridor_open(m, ax, ay, bx, by),
    ensures
        corridor_open(carved(m, dug), ax, ay, bx, by),
{
    let c = carved(m, dug);
    if run_open_h(m, ax, bx, ay) && run_open_v(m, ay, by, bx) {
        assert forall|i: int| 0 <= i < c.tiles.len() && on_horizontal_run(c.width, ax, bx, ay, i) implies #[trigger] c.tiles[i]
            == TileType::Floor by {
            assert(m.tiles[i] == TileType::Floor);
        }
        assert forall|i: int| 0 <= i < c.tiles.len() && on_vertical_run(c.width, ay, by, bx, i) implies #[trigger] c.tiles[i]
            == TileType::Floor by {
            assert(m.tiles[i] == TileType::Floor);
        }
    } else {
        assert forall|i: int| 0 <= i < c.tiles.len() && on_vertical_run(c.width, ay, by, ax, i) implies #[trigger] c.tiles[i]
            == TileType::Floor by {
            assert(m.tiles[i] == TileType::Floor);
        }
        assert forall|i: int| 0 <= i < c.tiles.len() && on_horizontal_run(c.width, ax, bx, by, i) implies #[trigger] c.tiles[i]
            == TileType::Floor by {
            assert(m.tiles[i] == TileType::Floor);
        }
    }
}

/// Carving only ever opens tiles, so rooms that were linked stay linked.
pub proof fn lemma_carving_keeps_links(m: TileMapView, dug: spec_fn(int) -> bool, upto: int)
    requires
        rooms_linked(m, upto),
    ensures
        rooms_linked(carved(m, dug), upto),
{
    let c = carved(m, dug);
    assert forall|r: int| 0 < r < upto implies #[trigger] linked_at(c, r) by {
        assert(linked_at(m, r));
        let (ax, ay, bx, by) = choose|ax: int, ay: int, bx: int, by: int|
            touches(m.rooms[r - 1], ax, ay) && touches(m.rooms[r], bx, by) && #[trigger] corridor_open(
                m,
                ax,
                ay,
                bx,
                by,
            );
        lemma_carving_keeps_corridor(m, dug, ax, ay, bx, by);
        assert(touches(c.rooms[r - 1], ax, ay) && touches(c.rooms[r], bx, by) && corridor_open(
            c,
            ax,
            ay,
            bx,
            by,
        ));
    }
}

/// Whether the tile is a floor tile of the map.
pub open spec fn is_spawn_tile(m: TileMapView, tile: int) -> bool {
    0 <= tile < m.tiles.len() && m.tiles[tile] == TileType::Floor
}

/// Whether the tile can be turned into a position on the map.
pub open spec fn placeable(m: TileMapView, tile: usize) -> bool {
    m.width > 0 && tile / (m.width as usize) < m.height
}

/// The position of a tile on the map.
pub open spec fn tile_position(m: TileMapView, tile: usize) -> Position {
    Position { x: (tile % (m.width as usize)) as i32, y: (tile / (m.width as usize)) as i32 }
}

/// The world after the first `k` spawns of a plan were put on the map. A
/// spawn on a tile that the map does not have is left out.
pub open spec fn spawns_upto(w: WorldView, plan: Seq<(usize, SpawnKind)>, k: nat) -> WorldView
    decreases k,
{
    if k == 0 {
        w
    } else {
        let before = spawns_upto(w, plan, (k - 1) as nat);
        if placeable(before.map, plan[k - 1].0) {
            spawned(before, tile_position(before.map, plan[k - 1].0), plan[k - 1].1)
        } else {
            before
        }
    }
}

/// How many of the first `k` spawns of a plan are on tiles that carry the label.
pub open spec fn planned_in(plan: Seq<(usize, SpawnKind)>, labels: Seq<i32>, label: i32, k: nat) -> nat
    decreases k,
{
    if k == 0 {
        0
    } else {
        planned_in(plan, labels, label, (k - 1) as nat) + (if labels[plan[k - 1].0 as int] == label {
            1nat
        } else {
            0nat
        })
    }
}

/// Plans that agree on their first `k` spawns have as many of them in a region.
pub proof fn lemma_planned_prefix(
    a: Seq<(usize, SpawnKind)>,
    b: Seq<(usize, SpawnKind)>,
    labels: Seq<i32>,
    label: i32,
    k: nat,
)
    requires
        k <= a.len(),
        k <= b.len(),
        forall|i: int| 0 <= i < k ==> a[i] == b[i],
    ensures
        planned_in(a, labels, label, k) == planned_in(b, labels, label, k),
    decreases k,
{
    if k > 0 {
        lemma_planned_prefix(a, b, labels, label, (k - 1) as nat);
    }
}

/// A stretch of spawns that all lie in the region of one label adds its
/// length to that region and nothing to any other.
pub proof fn lemma_planned_stretch(
    plan: Seq<(usize, SpawnKind)>,
    labels: Seq<i32>,
    label: i32,
    of: i32,
    from: nat,
    k: nat,
)
    requires
        from <= k <= plan.len(),
        forall|i: int| from <= i < k ==> labels[(#[trigger] plan[i]).0 as int] == of,
    ensures
        planned_in(plan, labels, label, k) == planned_in(plan, labels, label, from) + (if label == of {
            (k - from) as nat
        } else {
            0nat
        }),
    decreases k,
{
    if from < k {
        lemma_planned_stretch(plan, labels, label, of, from, (k - 1) as nat);
        assert(labels[plan[k - 1].0 as int] == of);
    }
}

/// A tile of a region among the first `k` tiles makes the region have a member.
pub proof fn lemma_region_holds(m: TileMapView, labels: Seq<i32>, label: i32, k: nat, tile: int)
    requires
        0 <= tile < k,
        in_region(m, labels, label, tile),
    ensures
        region_upto(m, labels, label, k).len() > 0,
    decreases k,
{
    if tile < k - 1 {
        lemma_region_holds(m, labels, label, (k - 1) as nat, tile);
    }
}

/// The members of a region are tiles of the region, in rising order.
pub proof fn lemma_region_members(m: TileMapView, labels: Seq<i32>, label: i32, k: nat)
    requires
        k <= m.tiles.len(),
        m.tiles.len() <= usize::MAX,
    ensures
        forall|j: int|
            0 <= j < region_upto(m, labels, label, k).len() ==> {
                let tile = #[trigger] region_upto(m, labels, label, k)[j];
                tile < k && in_region(m, labels, label, tile as int)
            },
        forall|i: int, j: int|
            0 <= i < j < region_upto(m, labels, label, k).len() ==> region_upto(m, labels, label, k)[i]
                < region_upto(m, labels, label, k)[j],
    decreases k,
{
    if k > 0 {
        lemma_region_members(m, labels, label, (k - 1) as nat);
        let before = region_upto(m, labels, label, (k - 1) as nat);
        let now = region_upto(m, labels, label, k);
        assert forall|j: int| 0 <= j < now.len() implies {
            let tile = #[trigger] now[j];
            tile < k && in_region(m, labels, label, tile as int)
        } by {
            if j < before.len() {
                assert(now[j] == before[j]);
            }
        }
        assert forall|i: int, j: int| 0 <= i < j < now.len() implies now[i] < now[j] by {
            assert(now[i] == before[i]);
            if j < before.len() {
                assert(now[j] == before[j]);
            }
        }
    }
}

impl Draft {
    /// A draft of solid rock.
    pub fn new(width: i32, height: i32, depth: i32) -> (draft: Draft)
        requires
            0 <= width,
            0 <= height,
            width * height <= usize::MAX,
        ensures
            draft.map.wf(),
            draft@ == (DraftView {
                map: TileMapView::blank(width as int, height as int, depth as int),
                starting_position: Position { x: 0, y: 0 },
                depth: depth as int,
                history: Seq::empty(),
                exit: 0,
                spawn_list: Seq::empty(),
            }),
    {
        let draft = Draft {
            map: TileMap::new(width, height, depth),
            starting_position: Position { x: 0, y: 0 },
            depth,
            history: Vec::new(),
            exit: 0,
            spawn_list: Vec::new(),
        };
        assert(draft@.history =~= Seq::<TileMapView>::empty());
        draft
    }

    /// Adds the map as it is now to the history.
    pub fn take_snapshot(&mut self)
        ensures
            final(self)@ == (DraftView { history: old(self)@.history.push(old(self)@.map), ..old(self)@ }),
            final(self).map == old(self).map,
            forall|begun: Seq<TileMapView>| #[trigger]
                history_grown(begun, old(self)@.history) ==> history_grown(begun, final(self)@.history),
    {
        let snapshot = self.map.duplicate();
        self.history.push(snapshot);
        assert(self@.history =~= old(self)@.history.push(old(self)@.map));
        assert forall|begun: Seq<TileMapView>| #[trigger]
            history_grown(begun, old(self)@.history) implies history_grown(begun, self@.history) by {
            assert(self@.history.take(begun.len() as int) =~= old(self)@.history.take(
                begun.len() as int,
            ));
        }
    }

    /// A copy of the map as it is now.
    pub fn get_map(&self) -> (map: TileMap)
        ensures
            map@ == self@.map,
    {
        self.map.duplicate()
    }

    /// Where the player enters the level.
    pub fn get_starting_position(&self) -> (at: Position)
        ensures
            at == self@.starting_position,
    {
        self.starting_position
    }

    /// A copy of every snapshot taken so far, oldest first.
    pub fn get_snapshot_history(&self) -> (history: Vec<TileMap>)
        ensures
            history@.map_values(|m: TileMap| m@) == self@.history,
    {
        let mut history: Vec<TileMap> = Vec::new();
        let mut i: usize = 0;
        while i < self.history.len()
            invariant
                i <= self.history@.len(),
                history@.len() == i,
                forall|k: int| 0 <= k < i ==> (#[trigger] history@[k])@ == self.history@[k]@,
            decreases self.history@.len() - i,
        {
            history.push(self.history[i].duplicate());
            i = i + 1;
        }
        assert(history@.map_values(|m: TileMap| m@) =~= self@.history);
        history
    }

    /// Finishes the carved level. `distances` holds for each tile how far
    /// it lies from the starting position, or nothing where it cannot be
    /// reached, and `labels` holds the noise label of each tile. Floor that
    /// cannot be reached is walled up, the exit is the floor tile farthest
    /// from the start, and the spawn plan is made anew: in each region of
    /// equally labelled floor tiles, a bounded number of
    /// spawns, no tile twice, and from the fourth level down at least one
    /// spawn where there is a tile for it.
    pub fn survey(
        &mut self,
        distances: &Vec<Option<u32>>,
        labels: &Vec<i32>,
        rng: &mut rltk::RandomNumberGenerator,
    )
        requires
            old(self).map.wf(),
            distances@.len() == old(self)@.map.tiles.len(),
            labels@.len() == old(self)@.map.tiles.len(),
        ensures
            final(self).map.wf(),
            final(self)@.map == pruned(old(self)@.map.with_walls_blocked(), distances@),
            forall|i: int|
                0 <= i < final(self)@.map.tiles.len() && #[trigger] final(self)@.map.tiles[i]
                    == TileType::Floor ==> distances@[i].is_some(),
            is_most_distant(final(self)@.map, distances@, final(self)@.exit),
            final(self)@.history == old(self)@.history.push(final(self)@.map),
            final(self)@.starting_position == old(self)@.starting_position,
            final(self)@.depth == old(self)@.depth,
            forall|k: int|
                0 <= k < final(self)@.spawn_list.len() ==> is_spawn_tile(
                    final(self)@.map,
                    (#[trigger] final(self)@.spawn_list[k]).0 as int,
                ),
            forall|j: int, k: int|
                0 <= j < k < final(self)@.spawn_list.len() ==> (#[trigger] final(self)@.spawn_list[j]).0
                    != (#[trigger] final(self)@.spawn_list[k]).0,
            forall|label: i32| #[trigger]
                planned_in(final(self)@.spawn_list, labels@, label, final(self)@.spawn_list.len())
                    <= spawn_bound(final(self)@.depth),
            final(self)@.depth >= 4 && (exists|tile: int| is_spawn_tile(final(self)@.map, tile))
                ==> final(self)@.spawn_list.len() > 0,
    {
        self.exit = remove_unreachable_areas_get_most_distant(&mut self.map, distances);
        self.take_snapshot();
        let mut noise_areas = generate_voronoi_spawn_regions(&self.map, labels);
        self.spawn_list = Vec::new();
        let count = self.map.tiles.len();
        let ghost level = self@.map;
        let ghost base = self@;
        let mut i: usize = 0;
        while i < count
            invariant
                i <= count,
                count == level.tiles.len(),
                count == labels@.len(),
                level.wf(),
                self@ == (DraftView { spawn_list: self@.spawn_list, ..base }),
                base.map == level,
                self.map.wf(),
                forall|label: i32| #[trigger]
                    noise_areas@.contains_key(label) ==> noise_areas@[label]@ == region(
                        level,
                        labels@,
                        label,
                    ),
                forall|k: int|
                    0 <= k < self.spawn_list@.len() ==> {
                        let tile = (#[trigger] self.spawn_list@[k]).0;
                        &&& is_spawn_tile(level, tile as int)
                        &&& !noise_areas@.contains_key(labels@[tile as int])
                    },
                forall|j: int, k: int|
                    0 <= j < k < self.spawn_list@.len() ==> (#[trigger] self.spawn_list@[j]).0
                        != (#[trigger] self.spawn_list@[k]).0,
                forall|label: i32| #[trigger]
                    planned_in(self.spawn_list@, labels@, label, self.spawn_list@.len()) <= spawn_bound(
                        base.depth,
                    ),
                forall|label: i32| #[trigger]
                    noise_areas@.contains_key(label) ==> planned_in(
                        self.spawn_list@,
                        labels@,
                        label,
                        self.spawn_list@.len(),
                    ) == 0,
                forall|j: int| 0 <= j < i ==> !noise_areas@.contains_key(#[trigger] labels@[j]),
                base.depth >= 4 ==> forall|label: i32|
                    region(level, labels@, label).len() > 0 && !(#[trigger] noise_areas@.contains_key(
                        label,
                    )) ==> self.spawn_list@.len() > 0,
            decreases count - i,
        {
            broadcast use vstd::std_specs::hash::group_hash_axioms;

            let label = labels[i];
            let ghost planned = self.spawn_list@;
            let ghost areas = noise_areas@;
            match noise_areas.remove(&label) {
                Some(area) => {
                    proof {
                        lemma_region_members(level, labels@, label, count as nat);
                        assert(area@ == region(level, labels@, label));
                        assert(area@.no_duplicates());
                    }
                    spawn_region(&area, self.depth, rng, &mut self.spawn_list);
                    proof {
                        let now = self.spawn_list@;
                        assert forall|k: int| 0 <= k < now.len() implies {
                            let tile = (#[trigger] now[k]).0;
                            &&& is_spawn_tile(level, tile as int)
                            &&& !noise_areas@.contains_key(labels@[tile as int])
                        } by {
                            if k < planned.len() {
                                assert(now.take(planned.len() as int)[k] == now[k]);
                                assert(now[k] == planned[k]);
                            } else {
                                let tile = now[k].0;
                                assert(area@.contains(tile));
                                let j = choose|j: int| 0 <= j < area@.len() && area@[j] == tile;
                                assert(region_upto(level, labels@, label, count as nat)[j] == tile);
                            }
                        }
                        assert forall|k: int| planned.len() <= k < now.len() implies labels@[(
                        #[trigger] now[k]).0 as int] == label by {
                            let tile = now[k].0;
                            assert(area@.contains(tile));
                            let j = choose|j: int| 0 <= j < area@.len() && area@[j] == tile;
                            assert(region_upto(level, labels@, label, count as nat)[j] == tile);
                        }
                        assert forall|k: int| 0 <= k < planned.len() implies planned[k] == now[k] by {
                            assert(now.take(planned.len() as int)[k] == now[k]);
                        }
                        assert forall|other: i32| #[trigger]
                            planned_in(now, labels@, other, now.len()) <= spawn_bound(base.depth) && (
                            noise_areas@.contains_key(other) ==> planned_in(
                                now,
                                labels@,
                                other,
                                now.len(),
                            ) == 0) by {
                            lemma_planned_prefix(planned, now, labels@, other, planned.len());
                            lemma_planned_stretch(now, labels@, other, label, planned.len(), now.len());
                            assert(planned_in(planned, labels@, other, planned.len()) <= spawn_bound(
                                base.depth,
                            ));
                            if other == label {
                                assert(areas.contains_key(label));
                            } else if noise_areas@.contains_key(other) {
                                assert(areas.contains_key(other));
                            }
                        }
                        assert forall|j: int, k: int| 0 <= j < k < now.len() implies (#[trigger] now[j]).0
                            != (#[trigger] now[k]).0 by {
                            if j < planned.len() {
                                assert(now.take(planned.len() as int)[j] == now[j]);
                                assert(now[j] == planned[j]);
                                if k < planned.len() {
                                    assert(now.take(planned.len() as int)[k] == now[k]);
                                    assert(now[k] == planned[k]);
                                } else {
                                    let tile = now[k].0;
                                    assert(area@.contains(tile));
                                    let jj = choose|jj: int| 0 <= jj < area@.len() && area@[jj] == tile;
                                    assert(region_upto(level, labels@, label, count as nat)[jj] == tile);
                                    assert(labels@[tile as int] == label);
                                    assert(!areas.contains_key(labels@[planned[j].0 as int]));
                                }
                            }
                        }
                    }
                },
                None => {},
            }
            i = i + 1;
        }
        proof {
            if self@.depth >= 4 && (exists|tile: int| is_spawn_tile(self@.map, tile)) {
                let tile = choose|tile: int| is_spawn_tile(self@.map, tile);
                lemma_region_holds(level, labels@, labels@[tile], count as nat, tile);
                assert(!noise_areas@.contains_key(labels@[tile]));
            }
        }
    }

    /// Puts everything that the spawn plan holds into the world, in the
    /// order of the plan.
    pub fn spawn_entities(&self, ecs: &mut World)
        requires
            old(ecs).wf(),
        ensures
            final(ecs).wf(),
            final(ecs)@ == spawns_upto(old(ecs)@, self@.spawn_list, self@.spawn_list.len()),
    {
        let mut k: usize = 0;
        while k < self.spawn_list.len()
            invariant
                k <= self.spawn_list@.len(),
                ecs.wf(),
                ecs@ == spawns_upto(old(ecs)@, self@.spawn_list, k as nat),
            decreases self.spawn_list@.len() - k,
        {
            let tile = self.spawn_list[k].0;
            let kind = self.spawn_list[k].1;
            if ecs.map.width > 0 {
                let width = ecs.map.width as usize;
                let x = tile % width;
                let y = tile / width;
                if y < ecs.map.height as usize {
                    spawn_entity(ecs, Position { x: x as i32, y: y as i32 }, kind);
                }
            }
            k = k + 1;
        }
    }
}

/// A strategy for carving a level, with the draft it works on.
pub enum MapBuilder {
    Simple(SimpleMapBuilder),
    Bsp(BspDungeonBuilder),
}

impl MapBuilder {
    /// The draft that the strategy works on. The list of parts that the
    /// partition builder keeps while it works is not part of the draft.
    pub open spec fn draft(&self) -> Draft {
        match self {
            MapBuilder::Simple(builder) => builder.draft,
            MapBuilder::Bsp(builder) => builder.draft,
        }
    }

    /// Carves the level anew out of solid rock, by the builder's strategy.
    /// On success there is at least one room, every room lies on the map
    /// off its edge and is all floor, no two rooms touch, each room but the
    /// first is linked by a corridor to the room before it, and the
    /// starting position is the middle of the first room. Without a room
    /// there is no level.
    pub fn build_map(&mut self, rng: &mut rltk::RandomNumberGenerator) -> (r: Result<
        (),
        GenerationError,
    >)
        requires
            old(self).draft().map.wf(),
        ensures
            final(self).draft().map.wf(),
            final(self).draft()@.map.width == old(self).draft()@.map.width,
            final(self).draft()@.map.height == old(self).draft()@.map.height,
            rooms_open(final(self).draft()@.map),
            r.is_ok() == (final(self).draft()@.map.rooms.len() > 0),
            r.is_ok() ==> final(self).draft()@.starting_position == first_room_middle(
                final(self).draft()@.map,
            ),
            forall|a: int, b: int|
                0 <= a < b < final(self).draft()@.map.rooms.len() ==> !(#[trigger] final(self).draft()@.map.rooms[a]).overlaps(
                    #[trigger] final(self).draft()@.map.rooms[b],
                ),
            rooms_linked(final(self).draft()@.map, final(self).draft()@.map.rooms.len() as int),
            history_grown(old(self).draft()@.history, final(self).draft()@.history),
            r.is_ok() ==> final(self).draft()@.history.len() > old(self).draft()@.history.len()
                && final(self).draft()@.history.last() == final(self).draft()@.map,
            *old(self) is Simple && old(self).draft()@.map.width >= 12 && old(self).draft()@.map.height
                >= 12 ==> r.is_ok(),
            old(self).draft()@.map.width < 8 || old(self).draft()@.map.height < 8 ==> r.is_err(),
            *old(self) is Simple ==> *final(self) is Simple,
            *old(self) is Bsp ==> *final(self) is Bsp,
    {
        match self {
            MapBuilder::Simple(builder) => builder.build_map(rng),
            MapBuilder::Bsp(builder) => builder.build_map(rng),
        }
    }

    /// Finishes the carved level: see [`Draft::survey`].
    pub fn survey(
        &mut self,
        distances: &Vec<Option<u32>>,
        labels: &Vec<i32>,
        rng: &mut rltk::RandomNumberGenerator,
    )
        requires
            old(self).draft().map.wf(),
            distances@.len() == old(self).draft()@.map.tiles.len(),
            labels@.len() == old(self).draft()@.map.tiles.len(),
        ensures
            final(self).draft().map.wf(),
            final(self).draft()@.map == pruned(
                old(self).draft()@.map.with_walls_blocked(),
                distances@,
            ),
            forall|i: int|
                0 <= i < final(self).draft()@.map.tiles.len() && #[trigger] final(self).draft()@.map.tiles[i] == TileType::Floor ==> distances@[i].is_some(),
            is_most_distant(final(self).draft()@.map, distances@, final(self).draft()@.exit),
            final(self).draft()@.history == old(self).draft()@.history.push(final(self).draft()@.map),
            final(self).draft()@.starting_position == old(self).draft()@.starting_position,
            forall|k: int|
                0 <= k < final(self).draft()@.spawn_list.len() ==> is_spawn_tile(
                    final(self).draft()@.map,
                    (#[trigger] final(self).draft()@.spawn_list[k]).0 as int,
                ),
            forall|j: int, k: int|
                0 <= j < k < final(self).draft()@.spawn_list.len() ==> (#[trigger] final(self).draft()@.spawn_list[j]).0 != (#[trigger] final(self).draft()@.spawn_list[k]).0,
            forall|label: i32| #[trigger]
                planned_in(
                    final(self).draft()@.spawn_list,
                    labels@,
                    label,
                    final(self).draft()@.spawn_list.len(),
                ) <= spawn_bound(final(self).draft()@.depth),
            final(self).draft()@.depth >= 4 && (exists|tile: int|
                is_spawn_tile(final(self).draft()@.map, tile)) ==> final(self).draft()@.spawn_list.len()
                > 0,
    {
        match self {
            MapBuilder::Simple(builder) => builder.draft.survey(distances, labels, rng),
            MapBuilder::Bsp(builder) => builder.draft.survey(distances, labels, rng),
        }
    }

    /// Puts everything that the spawn plan holds into the world.
    pub fn spawn_entities(&mut self, ecs: &mut World)
        requires
            old(ecs).wf(),
        ensures
            final(ecs).wf(),
            final(ecs)@ == spawns_upto(
                old(ecs)@,
                old(self).draft()@.spawn_list,
                old(self).draft()@.spawn_list.len(),
            ),
            final(self).draft() == old(self).draft(),
    {
        match self {
            MapBuilder::Simple(builder) => builder.draft.spawn_entities(ecs),
            MapBuilder::Bsp(builder) => builder.draft.spawn_entities(ecs),
        }
    }

    /// A copy of the map as it is now.
    pub fn get_map(&self) -> (map: TileMap)
        ensures
            map@ == self.draft()@.map,
    {
        match self {
            MapBuilder::Simple(builder) => builder.draft.get_map(),
            MapBuilder::Bsp(builder) => builder.draft.get_map(),
        }
    }

    /// Where the player enters the level.
    pub fn get_starting_position(&self) -> (at: Position)
        ensures
            at == self.draft()@.starting_position,
    {
        match self {
            MapBuilder::Simple(builder) => builder.draft.get_starting_position(),
            MapBuilder::Bsp(builder) => builder.draft.get_starting_position(),
        }
    }

    /// A copy of every snapshot taken so far, oldest first.
    pub fn get_snapshot_history(&self) -> (history: Vec<TileMap>)
        ensures
            history@.map_values(|m: TileMap| m@) == self.draft()@.history,
    {
        match self {
            MapBuilder::Simple(builder) => builder.draft.get_snapshot_history(),
            MapBuilder::Bsp(builder) => builder.draft.get_snapshot_history(),
        }
    }

    /// Adds the map as it is now to the history.
    pub fn take_snapshot(&mut self)
        ensures
            final(self).draft()@ == (DraftView {
                history: old(self).draft()@.history.push(old(self).draft()@.map),
                ..old(self).draft()@
            }),
    {
        match self {
            MapBuilder::Simple(builder) => builder.draft.take_snapshot(),
            MapBuilder::Bsp(builder) => builder.draft.take_snapshot(),
        }
    }
}

/// Whether the history has grown from `before` to `after` by snapshots
/// added at its end.
pub open spec fn history_grown(before: Seq<TileMapView>, after: Seq<TileMapView>) -> bool {
    before.len() <= after.len() && after.take(before.len() as int) == before
}

/// The middle of the first room of the level.
pub open spec fn first_room_middle(m: TileMapView) -> Position {
    Position {
        x: crate::map::midpoint(m.rooms[0].x1 as int, m.rooms[0].x2 as int) as i32,
        y: crate::map::midpoint(m.rooms[0].y1 as int, m.rooms[0].y2 as int) as i32,
    }
}

/// A draft of solid rock of the usual size.
pub open spec fn blank_draft(depth: int) -> DraftView {
    DraftView {
        map: TileMapView::blank(MAPWIDTH as int, MAPHEIGHT as int, depth),
        starting_position: Position { x: 0, y: 0 },
        depth,
        history: Seq::empty(),
        exit: 0,
        spawn_list: Seq::empty(),
    }
}

/// The builder that a throw of a coin selects: rooms and corridors on a
/// one, binary space partition on anything else.
pub fn builder_for_roll(roll: i32, new_depth: i32) -> (builder: MapBuilder)
    ensures
        (roll == 1) == (builder is Simple),
        (roll != 1) == (builder is Bsp),
        builder.draft().map.wf(),
        builder.draft()@ == blank_draft(new_depth as int),
{
    if roll == 1 {
        MapBuilder::Simple(SimpleMapBuilder::new(new_depth))
    } else {
        MapBuilder::Bsp(BspDungeonBuilder::new(new_depth))
    }
}

/// A builder for a new level, its strategy chosen by the throw of a coin.
pub fn random_builder(new_depth: i32) -> (builder: MapBuilder)
    ensures
        builder.draft().map.wf(),
        builder.draft()@ == blank_draft(new_depth as int),
{
    let mut rng = fresh_rng();
    let roll = roll_dice(&mut rng, 1, 2);
    builder_for_roll(roll, new_depth)
}

} // verus!
