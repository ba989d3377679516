//! Rooms placed inside the parts of a map that is split again and again,
//! each joined to the room placed after it.
use vstd::prelude::*;
use crate::components::Position;
use crate::dice::roll_dice;
use crate::map::{cell_index, Rect, TileMap, TileMapView, TileType, MAPHEIGHT, MAPWIDTH};
use crate::map_builders::common::{
    apply_horizontal_tunnel, apply_room_to_map, apply_vertical_tunnel, in_room, on_horizontal_run,
    on_vertical_run, with_room,
};
use crate::map_builders::simple_map::{lemma_carving_keeps_rooms, lemma_room_added, lemma_room_fits};
use crate::map_builders::{
    blank_draft, corridor_open, history_grown, first_room_middle, lemma_carving_keeps_links, linked_at,
    room_in_level, rooms_linked, rooms_open, run_open_h, run_open_v, touches, Draft, DraftView,
    GenerationError,
};

verus! {

/// How many times the builder tries to place a room.
pub const ATTEMPTS: i32 = 240;

/// The builder that places rooms inside the parts of a split map.
pub struct BspDungeonBuilder {
    pub draft: Draft,
    pub rects: Vec<Rect>,
}

/// Whether the part lies on the map.
pub open spec fn part_of_map(m: TileMapView, part: Rect) -> bool {
    0 <= part.x1 <= part.x2 <= m.width && 0 <= part.y1 <= part.y2 <= m.height
}

/// The four quarters of a part, each half as wide and half as high as the
/// part, rounded down: upper left, lower left, upper right, lower right. A
/// part less than two wide or high has no quarters.
pub open spec fn quarters(part: Rect) -> Seq<Rect> {
    let half_width = (part.x2 - part.x1) / 2;
    let half_height = (part.y2 - part.y1) / 2;
    let mid_x = (part.x1 + half_width) as i32;
    let mid_y = (part.y1 + half_height) as i32;
    let far_x = (part.x1 + 2 * half_width) as i32;
    let far_y = (part.y1 + 2 * half_height) as i32;
    if half_width >= 1 && half_height >= 1 {
        seq![
            Rect { x1: part.x1, x2: mid_x, y1: part.y1, y2: mid_y },
            Rect { x1: part.x1, x2: mid_x, y1: mid_y, y2: far_y },
            Rect { x1: mid_x, x2: far_x, y1: part.y1, y2: mid_y },
            Rect { x1: mid_x, x2: far_x, y1: mid_y, y2: far_y },
        ]
    } else {
        Seq::empty()
    }
}

/// Whether a room with these corners keeps two tiles of rock between itself
/// and the edge of the map.
pub open spec fn keeps_clear(m: TileMapView, x1: int, y1: int, x2: int, y2: int) -> bool {
    3 <= x1 && x1 + 2 <= x2 && x2 + 4 <= m.width && 3 <= y1 && y1 + 2 <= y2 && y2 + 4 <= m.height
}

/// Whether a room with these corners can be carved: it has to keep two
/// tiles between itself and the edge of the map, and nothing may be carved
/// yet within two tiles of it.
pub open spec fn can_carve(m: TileMapView, x1: int, y1: int, x2: int, y2: int) -> bool {
    &&& keeps_clear(m, x1, y1, x2, y2)
    &&& forall|x: int, y: int|
        x1 - 2 <= x <= x2 + 2 && y1 - 2 <= y <= y2 + 2 ==> m.tiles[#[trigger] cell_index(m.width, x, y)]
            == TileType::Wall
}

/// The level with the room carved and listed.
pub open spec fn with_listed_room(m: TileMapView, room: Rect) -> TileMapView {
    TileMapView { rooms: m.rooms.push(room), ..with_room(m, room) }
}

/// Whether the room keeps two tiles of rock between itself and the edge of
/// the map, and has sides of a size that this builder gives a room.
pub open spec fn room_kept_clear(m: TileMapView, room: Rect) -> bool {
    &&& keeps_clear(m, room.x1 as int, room.y1 as int, room.x2 as int, room.y2 as int)
    &&& 4 <= room.x2 - room.x1 <= 10
    &&& 4 <= room.y2 - room.y1 <= 10
}

impl BspDungeonBuilder {
    /// A builder for a level of the usual size.
    pub fn new(new_depth: i32) -> (builder: BspDungeonBuilder)
        ensures
            builder.draft.map.wf(),
            builder.draft@ == blank_draft(new_depth as int),
    {
        BspDungeonBuilder { draft: Draft::new(MAPWIDTH, MAPHEIGHT, new_depth), rects: Vec::new() }
    }

    /// A builder for a level of the given size.
    pub fn with_size(width: i32, height: i32, new_depth: i32) -> (builder: BspDungeonBuilder)
        requires
            0 <= width,
            0 <= height,
            width * height <= usize::MAX,
        ensures
            builder.draft.map.wf(),
            builder.draft@.map == TileMapView::blank(width as int, height as int, new_depth as int),
    {
        BspDungeonBuilder { draft: Draft::new(width, height, new_depth), rects: Vec::new() }
    }

    /// Splits a part in four and lists the quarters, where it is large
    /// enough to be split.
    fn add_subrects(&mut self, part: Rect)
        requires
            part_of_map(old(self).draft@.map, part),
            forall|k: int| 0 <= k < old(self).rects@.len() ==> part_of_map(old(self).draft@.map, #[trigger] old(self).rects@[k]),
        ensures
            final(self).draft == old(self).draft,
            final(self).rects@ == old(self).rects@ + quarters(part),
            old(self).rects@.len() <= final(self).rects@.len() <= old(self).rects@.len() + 4,
            forall|k: int| 0 <= k < final(self).rects@.len() ==> part_of_map(final(self).draft@.map, #[trigger] final(self).rects@[k]),
    {
        let half_width = (part.x2 - part.x1) / 2;
        let half_height = (part.y2 - part.y1) / 2;
        if half_width >= 1 && half_height >= 1 {
            self.rects.push(Rect::new(part.x1, part.y1, half_width, half_height));
            self.rects.push(Rect::new(part.x1, part.y1 + half_height, half_width, half_height));
            self.rects.push(Rect::new(part.x1 + half_width, part.y1, half_width, half_height));
            self.rects.push(
                Rect::new(part.x1 + half_width, part.y1 + half_height, half_width, half_height),
            );
        }
        assert(self.rects@ =~= old(self).rects@ + quarters(part));
    }

    /// Whether a room with these corners can be carved.
    pub fn is_possible(&self, x1: i64, y1: i64, x2: i64, y2: i64) -> (possible: bool)
        requires
            self.draft.map.wf(),
            -0x1_0000_0000 <= x1 <= 0x1_0000_0000,
            -0x1_0000_0000 <= x2 <= 0x1_0000_0000,
            -0x1_0000_0000 <= y1 <= 0x1_0000_0000,
            -0x1_0000_0000 <= y2 <= 0x1_0000_0000,
        ensures
            possible == can_carve(self.draft@.map, x1 as int, y1 as int, x2 as int, y2 as int),
    {
        let width = self.draft.map.width as i64;
        let height = self.draft.map.height as i64;
        if !(3 <= x1 && x1 + 2 <= x2 && x2 + 4 <= width && 3 <= y1 && y1 + 2 <= y2 && y2 + 4 <= height) {
            return false;
        }
        let count: usize = self.draft.map.tiles.len();
        let mut y: i64 = y1 - 2;
        while y <= y2 + 2
            invariant
                y1 - 2 <= y <= y2 + 3,
                3 <= x1,
                x1 + 2 <= x2,
                x2 + 4 <= width,
                3 <= y1,
                y1 + 2 <= y2,
                y2 + 4 <= height,
                width == self.draft.map.width,
                height == self.draft.map.height,
                self.draft.map.wf(),
                count == self.draft@.map.tiles.len(),
                forall|cx: int, cy: int|
                    x1 - 2 <= cx <= x2 + 2 && y1 - 2 <= cy < y ==> self.draft@.map.tiles[#[trigger] cell_index(
                        self.draft@.map.width,
                        cx,
                        cy,
                    )] == TileType::Wall,
            decreases y2 + 3 - y,
        {
            let mut x: i64 = x1 - 2;
            while x <= x2 + 2
                invariant
                    x1 - 2 <= x <= x2 + 3,
                    y1 - 2 <= y <= y2 + 2,
                    3 <= x1,
                    x1 + 2 <= x2,
                    x2 + 4 <= width,
                    3 <= y1,
                    y1 + 2 <= y2,
                    y2 + 4 <= height,
                    width == self.draft.map.width,
                    height == self.draft.map.height,
                    self.draft.map.wf(),
                    count == self.draft@.map.tiles.len(),
                    forall|cx: int, cy: int|
                        x1 - 2 <= cx <= x2 + 2 && (y1 - 2 <= cy < y || (cy == y && cx < x))
                            ==> self.draft@.map.tiles[#[trigger] cell_index(
                            self.draft@.map.width,
                            cx,
                            cy,
                        )] == TileType::Wall,
                decreases x2 + 3 - x,
            {
                proof {
                    crate::map::lemma_cell_index_in_grid(width as int, height as int, x as int, y as int);
                }
                let idx = self.draft.map.xy_idx(x as i32, y as i32);
                if self.draft.map.tiles[idx] != TileType::Wall {
                    assert(self.draft@.map.tiles[cell_index(self.draft@.map.width, x as int, y as int)]
                        != TileType::Wall);
                    return false;
                }
                x = x + 1;
            }
            y = y + 1;
        }
        true
    }

    /// Carves and lists a room with these corners where it can be carved,
    /// and says whether it did.
    pub fn try_room(&mut self, x1: i64, y1: i64, x2: i64, y2: i64) -> (placed: bool)
        requires
            old(self).draft.map.wf(),
            rooms_open(old(self).draft@.map),
            -0x1_0000_0000 <= x1 <= 0x1_0000_0000,
            -0x1_0000_0000 <= x2 <= 0x1_0000_0000,
            -0x1_0000_0000 <= y1 <= 0x1_0000_0000,
            -0x1_0000_0000 <= y2 <= 0x1_0000_0000,
        ensures
            placed == can_carve(old(self).draft@.map, x1 as int, y1 as int, x2 as int, y2 as int),
            final(self).draft.map.wf(),
            rooms_open(final(self).draft@.map),
            final(self).rects == old(self).rects,
            placed ==> final(self).draft@ == (DraftView {
                map: with_listed_room(
                    old(self).draft@.map,
                    Rect { x1: x1 as i32, x2: x2 as i32, y1: y1 as i32, y2: y2 as i32 },
                ),
                ..old(self).draft@
            }),
            !placed ==> final(self).draft@ == old(self).draft@,
    {
        if !self.is_possible(x1, y1, x2, y2) {
            return false;
        }
        let new_room = Rect { x1: x1 as i32, x2: x2 as i32, y1: y1 as i32, y2: y2 as i32 };
        let ghost before = self.draft@.map;
        proof {
            lemma_room_fits(before, new_room);
        }
        apply_room_to_map(&mut self.draft.map, &new_room);
        let ghost dug = self.draft@.map;
        self.draft.map.rooms.push(new_room);
        proof {
            let after = self.draft@.map;
            assert(after.tile_content == dug.tile_content);
            assert forall|i: int|
                0 <= i < before.tiles.len() && (before.tiles[i] == TileType::Floor || in_room(
                    before.width,
                    new_room,
                    i,
                )) implies #[trigger] after.tiles[i] == TileType::Floor by {
                assert(with_room(before, new_room).tiles[i] == TileType::Floor);
            }
            lemma_room_added(before, after, new_room);
        }
        true
    }

    /// Carves the level anew: up to `ATTEMPTS` times a room of random size
    /// inside a part of the map picked at random, kept where nothing is
    /// carved yet within two tiles of it; the part of a room that is kept is
    /// split in four. Then each room is joined to the one kept after it.
    /// Failure is certain on a map less than 11 wide or high.
    pub fn build_map(&mut self, rng: &mut rltk::RandomNumberGenerator) -> (r: Result<
        (),
        GenerationError,
    >)
        requires
            old(self).draft.map.wf(),
        ensures
            final(self).draft.map.wf(),
            final(self).draft@.map.width == old(self).draft@.map.width,
            final(self).draft@.map.height == old(self).draft@.map.height,
            rooms_open(final(self).draft@.map),
            r.is_ok() == (final(self).draft@.map.rooms.len() > 0),
            r.is_ok() ==> final(self).draft@.starting_position == first_room_middle(
                final(self).draft@.map,
            ),
            old(self).draft@.map.width < 11 || old(self).draft@.map.height < 11 ==> r.is_err(),
            forall|a: int, b: int|
                0 <= a < b < final(self).draft@.map.rooms.len() ==> !(#[trigger] final(self).draft@.map.rooms[a]).overlaps(#[trigger] final(self).draft@.map.rooms[b]),
            forall|a: int|
                0 <= a < final(self).draft@.map.rooms.len() ==> room_kept_clear(
                    final(self).draft@.map,
                    #[trigger] final(self).draft@.map.rooms[a],
                ),
            final(self).draft@.map.rooms.len() <= ATTEMPTS,
            rooms_linked(final(self).draft@.map, final(self).draft@.map.rooms.len() as int),
            history_grown(old(self).draft@.history, final(self).draft@.history),
            r.is_ok() ==> final(self).draft@.history.len() > old(self).draft@.history.len()
                && final(self).draft@.history.last() == final(self).draft@.map,
    {
        let width = self.draft.map.width;
        let height = self.draft.map.height;
        assert(self.draft.map.tiles.len() == self.draft.map.tiles@.len());
        self.draft.map = TileMap::new(width, height, self.draft.depth);
        self.rects = Vec::new();
        if width >= 5 && height >= 5 {
            let whole = Rect::new(2, 2, width - 5, height - 5);
            self.rects.push(whole);
            self.add_subrects(whole);
        }
        assert(self.draft@.history.take(old(self).draft@.history.len() as int) =~= old(self).draft@.history);
        let mut attempt: i32 = 0;
        while attempt < ATTEMPTS
            invariant
                0 <= attempt <= ATTEMPTS,
                self.draft.map.wf(),
                self.draft.map.width == width,
                self.draft.map.height == height,
                rooms_open(self.draft@.map),
                self.rects@.len() <= 5 + 4 * attempt,
                forall|k: int| 0 <= k < self.rects@.len() ==> part_of_map(self.draft@.map, #[trigger] self.rects@[k]),
                width < 11 || height < 11 ==> self.draft@.map.rooms.len() == 0,
                forall|a: int, b: int|
                    0 <= a < b < self.draft@.map.rooms.len() ==> !(#[trigger] self.draft@.map.rooms[a]).overlaps(
                        #[trigger] self.draft@.map.rooms[b],
                    ),
                forall|a: int|
                    0 <= a < self.draft@.map.rooms.len() ==> room_kept_clear(
                        self.draft@.map,
                        #[trigger] self.draft@.map.rooms[a],
                    ),
                self.draft@.map.rooms.len() <= attempt,
                history_grown(old(self).draft@.history, self.draft@.history),
                self.draft@.map.rooms.len() > 0 ==> self.draft@.history.len() > old(self).draft@.history.len()
                    && self.draft@.history.last() == self.draft@.map,
            decreases ATTEMPTS - attempt,
        {
            if self.rects.len() > 0 {
                let pick: usize = if self.rects.len() == 1 {
                    0
                } else {
                    (roll_dice(rng, 1, self.rects.len() as i32) - 1) as usize
                };
                let part = self.rects[pick];
                assert(part_of_map(self.draft@.map, part));
                let part_width = part.x2 - part.x1;
                let part_height = part.y2 - part.y1;
                let die_w: i32 = if part_width < 1 {
                    1
                } else if part_width > 10 {
                    10
                } else {
                    part_width
                };
                let die_h: i32 = if part_height < 1 {
                    1
                } else if part_height > 10 {
                    10
                } else {
                    part_height
                };
                let thrown_w = roll_dice(rng, 1, die_w) - 1;
                let thrown_h = roll_dice(rng, 1, die_h) - 1;
                let w: i64 = if thrown_w < 3 {
                    4
                } else {
                    thrown_w as i64 + 1
                };
                let h: i64 = if thrown_h < 3 {
                    4
                } else {
                    thrown_h as i64 + 1
                };
                let x1: i64 = part.x1 as i64 + roll_dice(rng, 1, 6) as i64 - 1;
                let y1: i64 = part.y1 as i64 + roll_dice(rng, 1, 6) as i64 - 1;
                let x2: i64 = x1 + w;
                let y2: i64 = y1 + h;
                let ghost before = self.draft@.map;
                if self.try_room(x1, y1, x2, y2) {
                    proof {
                        let new_room = Rect { x1: x1 as i32, x2: x2 as i32, y1: y1 as i32, y2: y2 as i32 };
                        let after = self.draft@.map;
                        assert forall|r: int| 0 <= r < before.rooms.len() implies !new_room.overlaps(
                            #[trigger] before.rooms[r],
                        ) by {
                            let other = before.rooms[r];
                            if new_room.overlaps(other) {
                                assert(room_in_level(before, other));
                                let cx = if other.x1 + 1 >= x1 - 2 {
                                    other.x1 + 1
                                } else {
                                    x1 - 2
                                };
                                let cy = if other.y1 + 1 >= y1 - 2 {
                                    other.y1 + 1
                                } else {
                                    y1 - 2
                                };
                                assert(before.rooms[r].holds(cx, cy));
                                assert(before.tiles[cell_index(before.width, cx, cy)] == TileType::Wall);
                            }
                        }
                        assert forall|a: int, b: int| 0 <= a < b < after.rooms.len() implies !(
                        #[trigger] after.rooms[a]).overlaps(#[trigger] after.rooms[b]) by {
                            assert(after.rooms[a] == before.rooms[a]);
                            if b < before.rooms.len() {
                                assert(after.rooms[b] == before.rooms[b]);
                            } else {
                                assert(!new_room.overlaps(before.rooms[a]));
                            }
                        }
                        assert forall|a: int| 0 <= a < after.rooms.len() implies room_kept_clear(
                            after,
                            #[trigger] after.rooms[a],
                        ) by {
                            if a < before.rooms.len() {
                                assert(after.rooms[a] == before.rooms[a]);
                                assert(room_kept_clear(before, before.rooms[a]));
                            }
                        }
                    }
                    self.add_subrects(part);
                    self.draft.take_snapshot();
                }
            }
            attempt = attempt + 1;
        }
        if self.draft.map.rooms.len() == 0 {
            return Err(GenerationError::NoRoom);
        }
        let rooms = self.draft.map.rooms.len();
        let mut i: usize = 0;
        while i + 1 < rooms
            invariant
                i < rooms,
                rooms == self.draft@.map.rooms.len(),
                self.draft.map.wf(),
                self.draft.map.width == width,
                self.draft.map.height == height,
                rooms_open(self.draft@.map),
                rooms_linked(self.draft@.map, i + 1),
                rooms <= ATTEMPTS,
                forall|a: int, b: int|
                    0 <= a < b < self.draft@.map.rooms.len() ==> !(#[trigger] self.draft@.map.rooms[a]).overlaps(
                        #[trigger] self.draft@.map.rooms[b],
                    ),
                forall|a: int|
                    0 <= a < self.draft@.map.rooms.len() ==> room_kept_clear(
                        self.draft@.map,
                        #[trigger] self.draft@.map.rooms[a],
                    ),
                history_grown(old(self).draft@.history, self.draft@.history),
                self.draft@.history.len() > old(self).draft@.history.len(),
                self.draft@.history.last() == self.draft@.map,
            decreases rooms - i,
        {
            let room = self.draft.map.rooms[i];
            let next = self.draft.map.rooms[i + 1];
            proof {
                assert(room_in_level(self.draft@.map, self.draft@.map.rooms[i as int]));
                assert(room_in_level(self.draft@.map, self.draft@.map.rooms[i + 1]));
            }
            let start_x = room.x1 + (roll_dice(rng, 1, room.x2 - room.x1) - 1);
            let start_y = room.y1 + (roll_dice(rng, 1, room.y2 - room.y1) - 1);
            let end_x = next.x1 + (roll_dice(rng, 1, next.x2 - next.x1) - 1);
            let end_y = next.y1 + (roll_dice(rng, 1, next.y2 - next.y1) - 1);
            let ghost m0 = self.draft@.map;
            apply_horizontal_tunnel(&mut self.draft.map, start_x, end_x, start_y);
            let ghost m1 = self.draft@.map;
            apply_vertical_tunnel(&mut self.draft.map, start_y, end_y, end_x);
            proof {
                let first = |t: int|
                    on_horizontal_run(m0.width, start_x as int, end_x as int, start_y as int, t);
                let second = |t: int|
                    on_vertical_run(m1.width, start_y as int, end_y as int, end_x as int, t);
                lemma_carving_keeps_rooms(m0, first);
                lemma_carving_keeps_rooms(m1, second);
                lemma_carving_keeps_links(m0, first, i + 1);
                lemma_carving_keeps_links(m1, second, i + 1);
                let m2 = self.draft@.map;
                assert(run_open_h(m1, start_x as int, end_x as int, start_y as int));
                assert(run_open_v(m2, start_y as int, end_y as int, end_x as int));
                assert(run_open_h(m2, start_x as int, end_x as int, start_y as int)) by {
                    assert forall|t: int|
                        0 <= t < m2.tiles.len() && on_horizontal_run(
                            m2.width,
                            start_x as int,
                            end_x as int,
                            start_y as int,
                            t,
                        ) implies #[trigger] m2.tiles[t] == TileType::Floor by {
                        assert(m1.tiles[t] == TileType::Floor);
                    }
                }
                assert(touches(m2.rooms[i as int], start_x as int, start_y as int) && touches(
                    m2.rooms[i + 1],
                    end_x as int,
                    end_y as int,
                ) && corridor_open(m2, start_x as int, start_y as int, end_x as int, end_y as int));
                assert(linked_at(m2, i + 1));
                assert forall|r: int| 0 < r < i + 2 implies #[trigger] linked_at(m2, r) by {
                    if r < i + 1 {
                        assert(rooms_linked(m2, i + 1));
                    }
                }
            }
            self.draft.take_snapshot();
            i = i + 1;
        }
        let (x, y) = self.draft.map.rooms[0].center();
        self.draft.starting_position = Position { x, y };
        Ok(())
    }
}

} // verus!
