//! Tiles, the map grid, room rectangles, and the message log.

use vstd::prelude::*;
use crate::color::Color;
use crate::object::Object;

verus! {

/// Width of every generated map, in tiles.
pub const MAP_WIDTH: i32 = 80;

/// Height of every generated map, in tiles.
pub const MAP_HEIGHT: i32 = 43;

/// One grid cell: wall/floor, sight-blocking, and the sticky explored flag.
#[derive(Clone, Copy, Debug, PartialEq, Eq, Structural)]
pub struct Tile {
    pub blocked: bool,
    pub block_sight: bool,
    pub explored: bool,
}

impl Tile {
    /// A walkable, see-through floor tile, not yet explored.
    pub fn empty() -> (t: Tile)
        ensures
            t == (Tile { blocked: false, block_sight: false, explored: false }),
    {
        Tile { blocked: false, block_sight: false, explored: false }
    }

    /// A solid wall tile, not yet explored.
    pub fn wall() -> (t: Tile)
        ensures
            t == (Tile { blocked: true, block_sight: true, explored: false }),
    {
        Tile { blocked: true, block_sight: true, explored: false }
    }
}

/// The level grid, indexed `map[x][y]`.
pub type LevelMap = Vec<Vec<Tile>>;

/// A floor tile as the generator writes it.
pub open spec fn empty_tile() -> Tile {
    Tile { blocked: false, block_sight: false, explored: false }
}

/// A wall tile as the generator writes it.
pub open spec fn wall_tile() -> Tile {
    Tile { blocked: true, block_sight: true, explored: false }
}

/// The tile of the grid view at column `x`, row `y`.
pub open spec fn tile_at(m: Seq<Vec<Tile>>, x: int, y: int) -> Tile {
    m[x]@[y]
}

/// The grid has exactly `MAP_WIDTH` columns of `MAP_HEIGHT` tiles each.
pub open spec fn map_dims_ok(m: Seq<Vec<Tile>>) -> bool {
    &&& m.len() == MAP_WIDTH
    &&& forall|x: int| 0 <= x < m.len() ==> (#[trigger] m[x])@.len() == MAP_HEIGHT
}

/// Every tile on the outer border of the grid is blocked.
pub open spec fn map_walled(m: Seq<Vec<Tile>>) -> bool {
    forall|x: int, y: int|
        0 <= x < MAP_WIDTH && 0 <= y < MAP_HEIGHT && (x == 0 || x == MAP_WIDTH - 1 || y == 0 || y
            == MAP_HEIGHT - 1) ==> (#[trigger] tile_at(m, x, y)).blocked
}

/// A position is blocked when its tile is blocked or some movement-blocking
/// entity already stands there.
pub open spec fn spec_is_blocked(x: int, y: int, m: Seq<Vec<Tile>>, objs: Seq<Object>) -> bool {
    ||| tile_at(m, x, y).blocked
    ||| exists|i: int|
        0 <= i < objs.len() && (#[trigger] objs[i]).blocks && objs[i].x == x && objs[i].y == y
}

/// Movement-blocking test against the map and the live entity list.
pub fn is_blocked(x: i32, y: i32, map: &LevelMap, objects: &Vec<Object>) -> (b: bool)
    requires
        map_dims_ok(map@),
        0 <= x < MAP_WIDTH,
        0 <= y < MAP_HEIGHT,
    ensures
        b == spec_is_blocked(x as int, y as int, map@, objects@),
{
    if map[x as usize][y as usize].blocked {
        return true;
    }
    let mut i: usize = 0;
    while i < objects.len()
        invariant
            i <= objects@.len(),
            forall|j: int|
                0 <= j < i ==> !((#[trigger] objects@[j]).blocks && objects@[j].x == x
                    && objects@[j].y == y),
        decreases objects@.len() - i,
    {
        if objects[i].blocks && objects[i].x == x && objects[i].y == y {
            return true;
        }
        i = i + 1;
    }
    false
}

/// An axis-aligned room rectangle used only during generation; `x2`/`y2` are
/// exclusive of the carved interior but inclusive in the overlap test.
#[derive(Clone, Copy, Debug, PartialEq, Eq, Structural)]
pub struct Rect {
    pub x1: i32,
    pub y1: i32,
    pub x2: i32,
    pub y2: i32,
}

/// The inclusive bounding-box overlap test between two rectangles.
pub open spec fn rects_intersect(a: Rect, b: Rect) -> bool {
    a.x1 <= b.x2 && a.x2 >= b.x1 && a.y1 <= b.y2 && a.y2 >= b.y1
}

impl Rect {
    pub fn new(x: i32, y: i32, w: i32, h: i32) -> (r: Rect)
        requires
            i32::MIN <= x + w <= i32::MAX,
            i32::MIN <= y + h <= i32::MAX,
        ensures
            r == (Rect { x1: x, y1: y, x2: (x + w) as i32, y2: (y + h) as i32 }),
    {
        Rect { x1: x, y1: y, x2: x + w, y2: y + h }
    }

    /// The center point, component-wise average rounded down.
    pub fn center(&self) -> (c: (i32, i32))
        requires
            0 <= self.x1 + self.x2 <= i32::MAX,
            0 <= self.y1 + self.y2 <= i32::MAX,
        ensures
            c.0 == (self.x1 + self.x2) / 2,
            c.1 == (self.y1 + self.y2) / 2,
    {
        let center_x = ((self.x1 + self.x2) as u32 / 2) as i32;
        let center_y = ((self.y1 + self.y2) as u32 / 2) as i32;
        (center_x, center_y)
    }

    /// Inclusive bounding-box overlap with another rectangle.
    pub fn intersects_with(&self, other: &Rect) -> (b: bool)
        ensures
            b == rects_intersect(*self, *other),
    {
        (self.x1 <= other.x2) && (self.x2 >= other.x1) && (self.y1 <= other.y2) && (self.y2
            >= other.y1)
    }
}

/// Append-only log of (text, color) pairs.
#[derive(Debug)]
pub struct Messages {
    pub messages: Vec<(String, Color)>,
}

impl View for Messages {
    type V = Seq<(Seq<char>, Color)>;

    open spec fn view(&self) -> Seq<(Seq<char>, Color)> {
        self.messages@.map_values(|p: (String, Color)| (p.0@, p.1))
    }
}

impl Messages {
    pub fn new() -> (m: Messages)
        ensures
            m@ == Seq::<(Seq<char>, Color)>::empty(),
    {
        let m = Messages { messages: Vec::new() };
        proof {
            assert(m@ =~= Seq::<(Seq<char>, Color)>::empty());
        }
        m
    }

    /// Append one message; everything already logged stays in place.
    pub fn add(&mut self, message: String, color: Color)
        ensures
            final(self)@ == old(self)@.push((message@, color)),
    {
        let ghost pre = self@;
        self.messages.push((message, color));
        proof {
            assert(final(self)@ =~= pre.push((message@, color)));
        }
    }

    pub fn len(&self) -> (n: usize)
        ensures
            n == self@.len(),
    {
        self.messages.len()
    }

    /// All logged messages, oldest first, for the rendering collaborator to
    /// walk.
    pub fn iter(&self) -> (r: &Vec<(String, Color)>)
        ensures
            r == self.messages,
    {
        &self.messages
    }

    /// Read one logged message back out.
    pub fn get(&self, i: usize) -> (m: &(String, Color))
        requires
            i < self@.len(),
        ensures
            (m.0@, m.1) == self@[i as int],
    {
        &self.messages[i]
    }
}

/// Objects carried in the inventory are inert item-bearing entities.
pub open spec fn inv_item_wf(o: Object) -> bool {
    &&& o.item is Some
    &&& o.fighter is None
    &&& o.ai is None
    &&& !o.blocks
    &&& !o.alive
}

/// A well-formed game: sound grid dimensions, a walled border, and an
/// inventory of inert items.
pub open spec fn game_wf(g: Game) -> bool {
    &&& map_dims_ok(g.map@)
    &&& map_walled(g.map@)
    &&& forall|i: int| 0 <= i < g.inventory@.len() ==> inv_item_wf(#[trigger] g.inventory@[i])
}

/// The authoritative, persistable snapshot of one run: the level grid, the
/// message log, the carried items, and how deep the player has descended.
/// Entities in the world are carried alongside in a separate list.
#[derive(Debug)]
pub struct Game {
    pub map: LevelMap,
    pub messages: Messages,
    pub inventory: Vec<Object>,
    pub dungeon_level: u32,
}

} // verus!
