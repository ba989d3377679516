//! The tile grid of one dungeon level.
use vstd::prelude::*;
use crate::components::Entity;

verus! {

/// What a single cell of the grid is made of.
#[derive(PartialEq, Eq, Structural, Clone, Copy, Debug)]
pub enum TileType {
    Wall,
    Floor,
}

/// An axis-aligned rectangle. A room carved from it occupies the cells
/// `x1 < x <= x2`, `y1 < y <= y2`, which leaves a wall along its top and left.
#[derive(PartialEq, Eq, Structural, Clone, Copy, Debug)]
pub struct Rect {
    pub x1: i32,
    pub x2: i32,
    pub y1: i32,
    pub y2: i32,
}

/// Half of `a + b`, rounded towards zero.
pub open spec fn midpoint(a: int, b: int) -> int {
    if a + b >= 0 {
        (a + b) / 2
    } else {
        -((-(a + b)) / 2)
    }
}

fn halfway(a: i32, b: i32) -> (m: i32)
    ensures
        m == midpoint(a as int, b as int),
{
    let sum: i64 = a as i64 + b as i64;
    if sum >= 0 {
        (sum / 2) as i32
    } else {
        (-((-sum) / 2)) as i32
    }
}

impl Rect {
    /// Whether the two rectangles share a point, borders included.
    pub open spec fn overlaps(self, other: Rect) -> bool {
        self.x1 <= other.x2 && self.x2 >= other.x1 && self.y1 <= other.y2 && self.y2 >= other.y1
    }

    /// Whether the cell `(x, y)` belongs to the room carved from this rectangle.
    pub open spec fn holds(self, x: int, y: int) -> bool {
        self.x1 < x <= self.x2 && self.y1 < y <= self.y2
    }

    /// The rectangle with a corner at `(x, y)`, `w` wide and `h` high.
    pub fn new(x: i32, y: i32, w: i32, h: i32) -> (r: Rect)
        requires
            i32::MIN <= x + w <= i32::MAX,
            i32::MIN <= y + h <= i32::MAX,
        ensures
            r == (Rect { x1: x, y1: y, x2: (x + w) as i32, y2: (y + h) as i32 }),
    {
        Rect { x1: x, y1: y, x2: x + w, y2: y + h }
    }

    /// Whether the two rectangles share a point, borders included.
    pub fn intersect(&self, other: &Rect) -> (r: bool)
        ensures
            r == self.overlaps(*other),
    {
        self.x1 <= other.x2 && self.x2 >= other.x1 && self.y1 <= other.y2 && self.y2 >= other.y1
    }

    /// The middle of the rectangle, rounded towards zero.
    pub fn center(&self) -> (c: (i32, i32))
        ensures
            c.0 == midpoint(self.x1 as int, self.x2 as int),
            c.1 == midpoint(self.y1 as int, self.y2 as int),
    {
        (halfway(self.x1, self.x2), halfway(self.y1, self.y2))
    }
}

/// The position in the tile vector of the cell `(x, y)` on a grid `width` wide.
pub open spec fn cell_index(width: int, x: int, y: int) -> int {
    y * width + x
}

/// Cells inside a `width` by `height` grid have their index inside the tile vector.
pub proof fn lemma_cell_index_in_grid(width: int, height: int, x: int, y: int)
    requires
        0 <= x < width,
        0 <= y < height,
    ensures
        0 <= cell_index(width, x, y) < width * height,
{
    assert(0 <= y * width) by (nonlinear_arith)
        requires
            0 <= y,
            0 <= width,
    ;
    assert((y + 1) * width <= height * width) by (nonlinear_arith)
        requires
            y + 1 <= height,
            0 <= width,
    ;
    assert((y + 1) * width == y * width + width) by (nonlinear_arith);
    assert(height * width == width * height) by (nonlinear_arith);
}

/// The width of a level that is built without a size of its own.
pub const MAPWIDTH: i32 = 80;

/// The height of a level that is built without a size of its own.
pub const MAPHEIGHT: i32 = 43;

/// One level of the dungeon.
pub struct TileMap {
    pub tiles: Vec<TileType>,
    pub rooms: Vec<Rect>,
    pub width: i32,
    pub height: i32,
    pub revealed_tiles: Vec<bool>,
    pub visible_tiles: Vec<bool>,
    pub blocked: Vec<bool>,
    pub depth: i32,
    pub tile_content: Vec<Vec<Entity>>,
}

/// What a [`TileMap`] holds, as mathematical values.
pub struct TileMapView {
    pub tiles: Seq<TileType>,
    pub rooms: Seq<Rect>,
    pub width: int,
    pub height: int,
    pub revealed: Seq<bool>,
    pub visible: Seq<bool>,
    pub blocked: Seq<bool>,
    pub depth: int,
    pub tile_content: Seq<Seq<Entity>>,
}

impl TileMapView {
    /// The grid and the vectors that run parallel to it agree in size.
    pub open spec fn wf(self) -> bool {
        &&& 0 <= self.width <= i32::MAX
        &&& 0 <= self.height <= i32::MAX
        &&& self.tiles.len() == self.width * self.height
        &&& self.revealed.len() == self.tiles.len()
        &&& self.visible.len() == self.tiles.len()
        &&& self.blocked.len() == self.tiles.len()
        &&& self.tile_content.len() == self.tiles.len()
    }

    /// Whether the cell `(x, y)` is on the map.
    pub open spec fn in_bounds(self, x: int, y: int) -> bool {
        0 <= x < self.width && 0 <= y < self.height
    }

    /// A level of solid rock that nobody has seen or entered.
    pub open spec fn blank(width: int, height: int, depth: int) -> TileMapView {
        TileMapView {
            tiles: Seq::new((width * height) as nat, |i: int| TileType::Wall),
            rooms: Seq::empty(),
            width,
            height,
            revealed: Seq::new((width * height) as nat, |i: int| false),
            visible: Seq::new((width * height) as nat, |i: int| false),
            blocked: Seq::new((width * height) as nat, |i: int| false),
            depth,
            tile_content: Seq::new((width * height) as nat, |i: int| Seq::empty()),
        }
    }

    /// The same level with exactly the walls as blocked tiles.
    pub open spec fn with_walls_blocked(self) -> TileMapView {
        TileMapView {
            blocked: Seq::new(self.tiles.len(), |i: int| self.tiles[i] == TileType::Wall),
            ..self
        }
    }

    /// The same level with nobody recorded on any tile.
    pub open spec fn with_no_content(self) -> TileMapView {
        TileMapView {
            tile_content: Seq::new(self.tiles.len(), |i: int| Seq::empty()),
            ..self
        }
    }
}

impl View for TileMap {
    type V = TileMapView;

    open spec fn view(&self) -> TileMapView {
        TileMapView {
            tiles: self.tiles@,
            rooms: self.rooms@,
            width: self.width as int,
            height: self.height as int,
            revealed: self.revealed_tiles@,
            visible: self.visible_tiles@,
            blocked: self.blocked@,
            depth: self.depth as int,
            tile_content: self.tile_content@.map_values(|cell: Vec<Entity>| cell@),
        }
    }
}

/// A vector with the same elements in the same order.
pub fn copy_of<T: Copy>(v: &Vec<T>) -> (copy: Vec<T>)
    ensures
        copy@ == v@,
{
    let mut copy: Vec<T> = Vec::new();
    let mut i: usize = 0;
    while i < v.len()
        invariant
            i <= v@.len(),
            copy@ == v@.take(i as int),
        decreases v@.len() - i,
    {
        copy.push(v[i]);
        assert(v@.take(i + 1) =~= v@.take(i as int).push(v@[i as int]));
        i = i + 1;
    }
    assert(v@.take(i as int) =~= v@);
    copy
}

impl TileMap {
    /// Whether the grid and the vectors that run parallel to it agree in size.
    pub open spec fn wf(&self) -> bool {
        self@.wf()
    }

    /// Whether the grid and the vectors that run parallel to it agree in size.
    pub fn is_well_formed(&self) -> (ok: bool)
        ensures
            ok == self.wf(),
    {
        if self.width < 0 || self.height < 0 {
            return false;
        }
        assert(0 <= self.width * self.height <= 0x4000_0000_0000_0000) by (nonlinear_arith)
            requires
                0 <= self.width <= 0x7fff_ffff,
                0 <= self.height <= 0x7fff_ffff,
        ;
        let cells: u64 = self.width as u64 * self.height as u64;
        let count = self.tiles.len();
        count as u64 == cells && self.revealed_tiles.len() == count && self.visible_tiles.len() == count
            && self.blocked.len() == count && self.tile_content.len() == count
    }

    /// A second map that holds what this one holds.
    pub fn duplicate(&self) -> (copy: TileMap)
        ensures
            copy@ == self@,
    {
        let mut tile_content: Vec<Vec<Entity>> = Vec::new();
        let mut i: usize = 0;
        while i < self.tile_content.len()
            invariant
                i <= self.tile_content@.len(),
                tile_content@.len() == i,
                forall|k: int| 0 <= k < i ==> (#[trigger] tile_content@[k])@ == self.tile_content@[k]@,
            decreases self.tile_content@.len() - i,
        {
            tile_content.push(copy_of(&self.tile_content[i]));
            i = i + 1;
        }
        let copy = TileMap {
            tiles: copy_of(&self.tiles),
            rooms: copy_of(&self.rooms),
            width: self.width,
            height: self.height,
            revealed_tiles: copy_of(&self.revealed_tiles),
            visible_tiles: copy_of(&self.visible_tiles),
            blocked: copy_of(&self.blocked),
            depth: self.depth,
            tile_content,
        };
        assert(copy@.tile_content =~~= self@.tile_content);
        copy
    }

    /// A level of solid rock, `width` by `height`.
    pub fn new(width: i32, height: i32, depth: i32) -> (m: TileMap)
        requires
            0 <= width,
            0 <= height,
            width * height <= usize::MAX,
        ensures
            m.wf(),
            m@ == TileMapView::blank(width as int, height as int, depth as int),
    {
        assert(0 <= width * height <= 0x4000_0000_0000_0000) by (nonlinear_arith)
            requires
                0 <= width <= 0x7fff_ffff,
                0 <= height <= 0x7fff_ffff,
        ;
        let count: usize = (width as u64 * height as u64) as usize;
        let mut m = TileMap {
            tiles: Vec::new(),
            rooms: Vec::new(),
            width,
            height,
            revealed_tiles: Vec::new(),
            visible_tiles: Vec::new(),
            blocked: Vec::new(),
            depth,
            tile_content: Vec::new(),
        };
        let mut i: usize = 0;
        while i < count
            invariant
                i <= count,
                m.width == width,
                m.height == height,
                m.depth == depth,
                m.rooms@.len() == 0,
                m.tiles@.len() == i,
                m.revealed_tiles@.len() == i,
                m.visible_tiles@.len() == i,
                m.blocked@.len() == i,
                m.tile_content@.len() == i,
                forall|k: int| 0 <= k < i ==> m.tiles@[k] == TileType::Wall,
                forall|k: int| 0 <= k < i ==> !m.revealed_tiles@[k],
                forall|k: int| 0 <= k < i ==> !m.visible_tiles@[k],
                forall|k: int| 0 <= k < i ==> !m.blocked@[k],
                forall|k: int| 0 <= k < i ==> (#[trigger] m.tile_content@[k])@.len() == 0,
            decreases count - i,
        {
            m.tiles.push(TileType::Wall);
            m.revealed_tiles.push(false);
            m.visible_tiles.push(false);
            m.blocked.push(false);
            m.tile_content.push(Vec::new());
            i = i + 1;
        }
        proof {
            let blank = TileMapView::blank(width as int, height as int, depth as int);
            assert(m@.tiles =~= blank.tiles);
            assert(m@.rooms =~= blank.rooms);
            assert(m@.revealed =~= blank.revealed);
            assert(m@.visible =~= blank.visible);
            assert(m@.blocked =~= blank.blocked);
            assert(m@.tile_content =~~= blank.tile_content);
        }
        m
    }

    /// The position of the cell `(x, y)` in the tile vector.
    pub fn xy_idx(&self, x: i32, y: i32) -> (idx: usize)
        requires
            0 <= cell_index(self.width as int, x as int, y as int) <= usize::MAX,
        ensures
            idx == cell_index(self.width as int, x as int, y as int),
    {
        assert(-0x4000_0000_0000_0000 <= y * self.width <= 0x4000_0000_0000_0000)
            by (nonlinear_arith)
            requires
                -0x8000_0000 <= y <= 0x7fff_ffff,
                -0x8000_0000 <= self.width <= 0x7fff_ffff,
        ;
        (y as i64 * self.width as i64 + x as i64) as usize
    }

    /// Whether the cell `(x, y)` is on the map.
    pub fn in_bounds(&self, x: i32, y: i32) -> (r: bool)
        ensures
            r == self@.in_bounds(x as int, y as int),
    {
        0 <= x && x < self.width && 0 <= y && y < self.height
    }

    /// Marks exactly the walls as blocked.
    pub fn populate_blocked(&mut self)
        requires
            old(self).wf(),
        ensures
            final(self).wf(),
            final(self)@ == old(self)@.with_walls_blocked(),
    {
        let mut i: usize = 0;
        while i < self.tiles.len()
            invariant
                i <= self.tiles@.len(),
                self.blocked@.len() == self.tiles@.len(),
                *self == (TileMap { blocked: self.blocked, ..*old(self) }),
                forall|k: int| 0 <= k < i ==> self.blocked@[k] == (self.tiles@[k] == TileType::Wall),
            decreases self.tiles@.len() - i,
        {
            self.blocked[i] = self.tiles[i] == TileType::Wall;
            i = i + 1;
        }
        assert(self@.blocked =~= old(self)@.with_walls_blocked().blocked);
    }

    /// Forgets who stands where.
    pub fn clear_content_index(&mut self)
        requires
            old(self).wf(),
        ensures
            final(self).wf(),
            final(self)@ == old(self)@.with_no_content(),
    {
        let mut i: usize = 0;
        while i < self.tile_content.len()
            invariant
                i <= self.tile_content@.len(),
                self.tile_content@.len() == self.tiles@.len(),
                *self == (TileMap { tile_content: self.tile_content, ..*old(self) }),
                forall|k: int| 0 <= k < i ==> (#[trigger] self.tile_content@[k])@.len() == 0,
            decreases self.tile_content@.len() - i,
        {
            self.tile_content[i].clear();
            i = i + 1;
        }
        assert(self@.tile_content =~~= old(self)@.with_no_content().tile_content);
    }
}

} // verus!
