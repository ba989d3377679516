//! Rooms placed at random where they fit, each joined to the one before it
//! by a corridor with one bend.
use vstd::prelude::*;
use crate::components::Position;
use crate::dice::{range, roll_dice};
use crate::map::{
    cell_index, lemma_cell_index_in_grid, Rect, TileMap, TileMapView, TileType, MAPHEIGHT, MAPWIDTH,
};
use crate::map_builders::common::{
    apply_horizontal_tunnel, apply_room_to_map, apply_vertical_tunnel, carved, in_room, room_fits,
    with_room,
};
use crate::map_builders::{
    blank_draft, corridor_open, history_grown, first_room_middle, lemma_carving_keeps_corridor,
    lemma_carving_keeps_links, linked_at, room_in_level, rooms_linked, rooms_open, run_open_h,
    run_open_v, touches, Draft, GenerationError,
};

verus! {

/// How many times the builder tries to place a room.
pub const MAX_ROOMS: i32 = 30;

/// The smallest side of a room.
pub const MIN_SIZE: i32 = 6;

/// One more than the largest side of a room.
pub const MAX_SIZE: i32 = 10;

/// Whether both sides of the room are of a size that this builder gives a room.
pub open spec fn room_sized(room: Rect) -> bool {
    MIN_SIZE <= room.x2 - room.x1 < MAX_SIZE && MIN_SIZE <= room.y2 - room.y1 < MAX_SIZE
}

/// The builder that places rooms at random and joins them by corridors.
pub struct SimpleMapBuilder {
    pub draft: Draft,
}

/// Carving only ever opens tiles, so rooms that were open stay open.
pub proof fn lemma_carving_keeps_rooms(m: TileMapView, dug: spec_fn(int) -> bool)
    requires
        m.wf(),
        rooms_open(m),
    ensures
        rooms_open(carved(m, dug)),
{
    let c = carved(m, dug);
    assert forall|r: int, x: int, y: int| 0 <= r < c.rooms.len() && #[trigger] c.rooms[r].holds(x, y) implies c.tiles[cell_index(
        c.width,
        x,
        y,
    )] == TileType::Floor by {
        assert(room_in_level(m, m.rooms[r]));
        assert(m.rooms[r].holds(x, y));
        lemma_cell_index_in_grid(m.width, m.height, x, y);
    }
    assert forall|r: int| 0 <= r < c.rooms.len() implies room_in_level(c, #[trigger] c.rooms[r]) by {
        assert(room_in_level(m, m.rooms[r]));
    }
}

/// A room that lies on the map has a tile for each of its cells.
pub proof fn lemma_room_fits(m: TileMapView, room: Rect)
    requires
        m.wf(),
        room_in_level(m, room),
    ensures
        room_fits(m, room),
{
    assert forall|x: int, y: int| room.holds(x, y) implies 0 <= #[trigger] cell_index(m.width, x, y)
        < m.tiles.len() by {
        lemma_cell_index_in_grid(m.width, m.height, x, y);
    }
}

/// A room carved into a level whose rooms are open, and then listed, leaves
/// a level whose rooms are open.
pub proof fn lemma_room_added(before: TileMapView, after: TileMapView, room: Rect)
    requires
        before.wf(),
        rooms_open(before),
        room_in_level(before, room),
        after.wf(),
        after.width == before.width,
        after.height == before.height,
        after.rooms == before.rooms.push(room),
        forall|i: int|
            0 <= i < before.tiles.len() && (before.tiles[i] == TileType::Floor || in_room(
                before.width,
                room,
                i,
            )) ==> #[trigger] after.tiles[i] == TileType::Floor,
    ensures
        rooms_open(after),
{
    assert forall|r: int| 0 <= r < after.rooms.len() implies room_in_level(after, #[trigger] after.rooms[r]) by {
        if r < before.rooms.len() {
            assert(room_in_level(before, before.rooms[r]));
        }
    }
    assert forall|r: int, x: int, y: int| 0 <= r < after.rooms.len() && #[trigger] after.rooms[r].holds(x, y) implies after.tiles[cell_index(
        after.width,
        x,
        y,
    )] == TileType::Floor by {
        let i = cell_index(before.width, x, y);
        if r < before.rooms.len() {
            assert(room_in_level(before, before.rooms[r]));
            assert(before.rooms[r].holds(x, y));
            lemma_cell_index_in_grid(before.width, before.height, x, y);
            assert(after.tiles[i] == TileType::Floor);
        } else {
            lemma_cell_index_in_grid(before.width, before.height, x, y);
            assert(room.holds(x, y) && cell_index(before.width, x, y) == i);
            assert(in_room(before.width, room, i));
            assert(after.tiles[i] == TileType::Floor);
        }
    }
}

impl SimpleMapBuilder {
    /// A builder for a level of the usual size.
    pub fn new(new_depth: i32) -> (builder: SimpleMapBuilder)
        ensures
            builder.draft.map.wf(),
            builder.draft@ == blank_draft(new_depth as int),
    {
        SimpleMapBuilder { draft: Draft::new(MAPWIDTH, MAPHEIGHT, new_depth) }
    }

    /// A builder for a level of the given size.
    pub fn with_size(width: i32, height: i32, new_depth: i32) -> (builder: SimpleMapBuilder)
        requires
            0 <= width,
            0 <= height,
            width * height <= usize::MAX,
        ensures
            builder.draft.map.wf(),
            builder.draft@.map == TileMapView::blank(width as int, height as int, new_depth as int),
    {
        SimpleMapBuilder { draft: Draft::new(width, height, new_depth) }
    }

    /// Carves the level anew: up to `MAX_ROOMS` times a room of random
    /// size at a random place, kept where it touches no room kept before,
    /// and joined to the room kept before it. Success is certain on a map
    /// at least `MAX_SIZE + 2` wide and high, and failure on a map less
    /// than `MIN_SIZE + 2` wide or high.
    pub fn build_map(&mut self, rng: &mut rltk::RandomNumberGenerator) -> (r: Result<
        (),
        GenerationError,
    >)
        requires
            old(self).draft.map.wf(),
        ensures
            final(self).draft.map.wf(),
            final(self).draft@.map.width == old(self).draft@.map.width,
            final(self).draft@.map.height == old(self).draft@.map.height,
            rooms_open(final(self).draft@.map),
            r.is_ok() == (final(self).draft@.map.rooms.len() > 0),
            r.is_ok() ==> final(self).draft@.starting_position == first_room_middle(
                final(self).draft@.map,
            ),
            old(self).draft@.map.width >= MAX_SIZE + 2 && old(self).draft@.map.height >= MAX_SIZE + 2
                ==> r.is_ok(),
            old(self).draft@.map.width < MIN_SIZE + 2 || old(self).draft@.map.height < MIN_SIZE + 2
                ==> r.is_err(),
            forall|a: int, b: int|
                0 <= a < b < final(self).draft@.map.rooms.len() ==> !(#[trigger] final(self).draft@.map.rooms[a]).overlaps(#[trigger] final(self).draft@.map.rooms[b]),
            forall|a: int|
                0 <= a < final(self).draft@.map.rooms.len() ==> room_sized(
                    #[trigger] final(self).draft@.map.rooms[a],
                ),
            final(self).draft@.map.rooms.len() <= MAX_ROOMS,
            rooms_linked(final(self).draft@.map, final(self).draft@.map.rooms.len() as int),
            history_grown(old(self).draft@.history, final(self).draft@.history),
            r.is_ok() ==> final(self).draft@.history.len() > old(self).draft@.history.len()
                && final(self).draft@.history.last() == final(self).draft@.map,
    {
        let width = self.draft.map.width;
        let height = self.draft.map.height;
        assert(self.draft.map.tiles.len() == self.draft.map.tiles@.len());
        self.draft.map = TileMap::new(width, height, self.draft.depth);
        assert(self.draft@.history.take(old(self).draft@.history.len() as int) =~= old(self).draft@.history);
        let mut attempt: i32 = 0;
        while attempt < MAX_ROOMS
            invariant
                0 <= attempt <= MAX_ROOMS,
                self.draft.map.wf(),
                self.draft.map.width == width,
                self.draft.map.height == height,
                rooms_open(self.draft@.map),
                attempt > 0 && width >= MAX_SIZE + 2 && height >= MAX_SIZE + 2
                    ==> self.draft@.map.rooms.len() > 0,
                width < MIN_SIZE + 2 || height < MIN_SIZE + 2 ==> self.draft@.map.rooms.len() == 0,
                forall|a: int, b: int|
                    0 <= a < b < self.draft@.map.rooms.len() ==> !(#[trigger] self.draft@.map.rooms[a]).overlaps(
                        #[trigger] self.draft@.map.rooms[b],
                    ),
                forall|a: int|
                    0 <= a < self.draft@.map.rooms.len() ==> room_sized(#[trigger] self.draft@.map.rooms[a]),
                self.draft@.map.rooms.len() <= attempt,
                rooms_linked(self.draft@.map, self.draft@.map.rooms.len() as int),
                history_grown(old(self).draft@.history, self.draft@.history),
                self.draft@.map.rooms.len() > 0 ==> self.draft@.history.len() > old(self).draft@.history.len()
                    && self.draft@.history.last() == self.draft@.map,
            decreases MAX_ROOMS - attempt,
        {
            let w = range(rng, MIN_SIZE, MAX_SIZE);
            let h = range(rng, MIN_SIZE, MAX_SIZE);
            if width - w - 1 >= 1 && height - h - 1 >= 1 {
                let x = roll_dice(rng, 1, width - w - 1) - 1;
                let y = roll_dice(rng, 1, height - h - 1) - 1;
                let new_room = Rect::new(x, y, w, h);
                let mut ok = true;
                let mut k: usize = 0;
                while k < self.draft.map.rooms.len()
                    invariant
                        k <= self.draft.map.rooms@.len(),
                        ok == (forall|j: int| 0 <= j < k ==> !new_room.overlaps(#[trigger] self.draft.map.rooms@[j])),
                    decreases self.draft.map.rooms@.len() - k,
                {
                    if new_room.intersect(&self.draft.map.rooms[k]) {
                        ok = false;
                    }
                    k = k + 1;
                }
                if ok {
                    let ghost before = self.draft@.map;
                    proof {
                        lemma_room_fits(before, new_room);
                    }
                    apply_room_to_map(&mut self.draft.map, &new_room);
                    self.draft.take_snapshot();
                    proof {
                        lemma_carving_keeps_rooms(before, |i: int| in_room(before.width, new_room, i));
                        lemma_carving_keeps_links(
                            before,
                            |i: int| in_room(before.width, new_room, i),
                            before.rooms.len() as int,
                        );
                    }
                    let ghost mut joined = false;
                    let ghost mut ends = (0int, 0int, 0int, 0int);
                    if self.draft.map.rooms.len() > 0 {
                        let (new_x, new_y) = new_room.center();
                        let last = self.draft.map.rooms.len() - 1;
                        let (prev_x, prev_y) = self.draft.map.rooms[last].center();
                        let ghost m0 = self.draft@.map;
                        proof {
                            assert(room_in_level(m0, m0.rooms[last as int]));
                            assert(touches(m0.rooms[last as int], prev_x as int, prev_y as int));
                            assert(touches(new_room, new_x as int, new_y as int));
                        }
                        if range(rng, 0, 2) == 1 {
                            apply_horizontal_tunnel(&mut self.draft.map, prev_x, new_x, prev_y);
                            let ghost m1 = self.draft@.map;
                            apply_vertical_tunnel(&mut self.draft.map, prev_y, new_y, new_x);
                            proof {
                                let first = |i: int|
                                    crate::map_builders::common::on_horizontal_run(
                                        m0.width,
                                        prev_x as int,
                                        new_x as int,
                                        prev_y as int,
                                        i,
                                    );
                                let second = |i: int|
                                    crate::map_builders::common::on_vertical_run(
                                        m1.width,
                                        prev_y as int,
                                        new_y as int,
                                        new_x as int,
                                        i,
                                    );
                                lemma_carving_keeps_rooms(m0, first);
                                lemma_carving_keeps_rooms(m1, second);
                                lemma_carving_keeps_links(m0, first, m0.rooms.len() as int);
                                lemma_carving_keeps_links(m1, second, m1.rooms.len() as int);
                                let m2 = self.draft@.map;
                                assert(run_open_h(m1, prev_x as int, new_x as int, prev_y as int));
                                assert(run_open_v(m2, prev_y as int, new_y as int, new_x as int));
                                assert(run_open_h(m2, prev_x as int, new_x as int, prev_y as int)) by {
                                    assert forall|i: int|
                                        0 <= i < m2.tiles.len() && crate::map_builders::common::on_horizontal_run(
                                            m2.width,
                                            prev_x as int,
                                            new_x as int,
                                            prev_y as int,
                                            i,
                                        ) implies #[trigger] m2.tiles[i] == TileType::Floor by {
                                        assert(m1.tiles[i] == TileType::Floor);
                                    }
                                }
                                joined = true;
                                ends = (prev_x as int, prev_y as int, new_x as int, new_y as int);
                            }
                        } else {
                            apply_vertical_tunnel(&mut self.draft.map, prev_y, new_y, prev_x);
                            let ghost m1 = self.draft@.map;
                            apply_horizontal_tunnel(&mut self.draft.map, prev_x, new_x, new_y);
                            proof {
                                let first = |i: int|
                                    crate::map_builders::common::on_vertical_run(
                                        m0.width,
                                        prev_y as int,
                                        new_y as int,
                                        prev_x as int,
                                        i,
                                    );
                                let second = |i: int|
                                    crate::map_builders::common::on_horizontal_run(
                                        m1.width,
                                        prev_x as int,
                                        new_x as int,
                                        new_y as int,
                                        i,
                                    );
                                lemma_carving_keeps_rooms(m0, first);
                                lemma_carving_keeps_rooms(m1, second);
                                lemma_carving_keeps_links(m0, first, m0.rooms.len() as int);
                                lemma_carving_keeps_links(m1, second, m1.rooms.len() as int);
                                let m2 = self.draft@.map;
                                assert(run_open_v(m1, prev_y as int, new_y as int, prev_x as int));
                                assert(run_open_h(m2, prev_x as int, new_x as int, new_y as int));
                                assert(run_open_v(m2, prev_y as int, new_y as int, prev_x as int)) by {
                                    assert forall|i: int|
                                        0 <= i < m2.tiles.len() && crate::map_builders::common::on_vertical_run(
                                            m2.width,
                                            prev_y as int,
                                            new_y as int,
                                            prev_x as int,
                                            i,
                                        ) implies #[trigger] m2.tiles[i] == TileType::Floor by {
                                        assert(m1.tiles[i] == TileType::Floor);
                                    }
                                }
                                joined = true;
                                ends = (prev_x as int, prev_y as int, new_x as int, new_y as int);
                            }
                        }
                    }
                    let ghost dug = self.draft@.map;
                    self.draft.map.rooms.push(new_room);
                    self.draft.take_snapshot();
                    proof {
                        let after = self.draft@.map;
                        assert(after.tile_content == dug.tile_content);
                        assert forall|i: int|
                            0 <= i < before.tiles.len() && (before.tiles[i] == TileType::Floor || in_room(
                                before.width,
                                new_room,
                                i,
                            )) implies #[trigger] after.tiles[i] == TileType::Floor by {
                            assert(with_room(before, new_room).tiles[i] == TileType::Floor);
                        }
                        lemma_room_added(before, after, new_room);
                        assert forall|r: int| 0 < r < after.rooms.len() implies #[trigger] linked_at(
                            after,
                            r,
                        ) by {
                            if r < before.rooms.len() {
                                assert(linked_at(dug, r));
                                let (ax, ay, bx, by) = choose|ax: int, ay: int, bx: int, by: int|
                                    touches(dug.rooms[r - 1], ax, ay) && touches(dug.rooms[r], bx, by)
                                        && #[trigger] corridor_open(dug, ax, ay, bx, by);
                                assert(after.tiles == dug.tiles);
                                assert(run_open_h(dug, ax, bx, ay) == run_open_h(after, ax, bx, ay));
                                assert(run_open_v(dug, ay, by, bx) == run_open_v(after, ay, by, bx));
                                assert(run_open_v(dug, ay, by, ax) == run_open_v(after, ay, by, ax));
                                assert(run_open_h(dug, ax, bx, by) == run_open_h(after, ax, bx, by));
                                assert(touches(after.rooms[r - 1], ax, ay) && touches(
                                    after.rooms[r],
                                    bx,
                                    by,
                                ) && corridor_open(after, ax, ay, bx, by));
                            } else {
                                assert(joined);
                                assert(after.tiles == dug.tiles);
                                assert(run_open_h(dug, ends.0, ends.2, ends.1) == run_open_h(
                                    after,
                                    ends.0,
                                    ends.2,
                                    ends.1,
                                ));
                                assert(run_open_v(dug, ends.1, ends.3, ends.2) == run_open_v(
                                    after,
                                    ends.1,
                                    ends.3,
                                    ends.2,
                                ));
                                assert(run_open_v(dug, ends.1, ends.3, ends.0) == run_open_v(
                                    after,
                                    ends.1,
                                    ends.3,
                                    ends.0,
                                ));
                                assert(run_open_h(dug, ends.0, ends.2, ends.3) == run_open_h(
                                    after,
                                    ends.0,
                                    ends.2,
                                    ends.3,
                                ));
                                assert(touches(after.rooms[r - 1], ends.0, ends.1) && touches(
                                    after.rooms[r],
                                    ends.2,
                                    ends.3,
                                ) && corridor_open(after, ends.0, ends.1, ends.2, ends.3));
                            }
                        }
                        assert forall|a: int| 0 <= a < after.rooms.len() implies room_sized(
                            #[trigger] after.rooms[a],
                        ) by {
                            if a < before.rooms.len() {
                                assert(after.rooms[a] == before.rooms[a]);
                            }
                        }
                        assert forall|a: int, b: int| 0 <= a < b < after.rooms.len() implies !(
                        #[trigger] after.rooms[a]).overlaps(#[trigger] after.rooms[b]) by {
                            if b < before.rooms.len() {
                                assert(after.rooms[a] == before.rooms[a]);
                                assert(after.rooms[b] == before.rooms[b]);
                            } else {
                                assert(after.rooms[a] == before.rooms[a]);
                                assert(!new_room.overlaps(before.rooms[a]));
                            }
                        }
                    }
                }
            }
            attempt = attempt + 1;
        }
        if self.draft.map.rooms.len() == 0 {
            return Err(GenerationError::NoRoom);
        }
        let (x, y) = self.draft.map.rooms[0].center();
        self.draft.starting_position = Position { x, y };
        Ok(())
    }
}

} // verus!
