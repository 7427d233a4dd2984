//! Dungeon generation: non-overlapping rooms, L-shaped corridors, and the
//! random population of monsters, items and the stairs.

use vstd::prelude::*;
use crate::color::Color;
use crate::game::{
    LevelMap, Tile, Rect, rects_intersect, map_dims_ok, map_walled, tile_at, empty_tile,
    wall_tile, is_blocked, MAP_WIDTH, MAP_HEIGHT,
};
use crate::object::{Object, Fighter, Ai, Item, DeathCallBack};
use crate::rng::{rand_range_i32, rand_ratio};

verus! {

pub const ROOM_MAX_SIZE: i32 = 10;

pub const ROOM_MIN_SIZE: i32 = 6;

pub const MAX_ROOMS: i32 = 30;

pub const MAX_ROOM_MONSTERS: i32 = 3;

pub const MAX_ROOM_ITEMS: i32 = 2;

/// An accepted room: sized within bounds and strictly inside the outer wall.
pub open spec fn room_ok(r: Rect) -> bool {
    &&& 0 <= r.x1
    &&& 0 <= r.y1
    &&& r.x1 + ROOM_MIN_SIZE <= r.x2 <= r.x1 + ROOM_MAX_SIZE
    &&& r.y1 + ROOM_MIN_SIZE <= r.y2 <= r.y1 + ROOM_MAX_SIZE
    &&& r.x2 <= MAP_WIDTH - 1
    &&& r.y2 <= MAP_HEIGHT - 1
}

/// Sample up to `MAX_ROOMS` random rooms, rejecting an overlapping candidate
/// rather than retrying it; the accepted rooms never overlap pairwise.
pub fn plan_rooms() -> (rooms: Vec<Rect>)
    ensures
        1 <= rooms@.len() <= MAX_ROOMS,
        forall|i: int| 0 <= i < rooms@.len() ==> room_ok(#[trigger] rooms@[i]),
        forall|i: int, j: int|
            0 <= i < j < rooms@.len() ==> !rects_intersect(rooms@[i], rooms@[j]),
{
    let mut rooms: Vec<Rect> = Vec::new();
    let mut n: i32 = 0;
    while n < MAX_ROOMS
        invariant
            0 <= n <= MAX_ROOMS,
            rooms@.len() <= n,
            n > 0 ==> rooms@.len() >= 1,
            forall|i: int| 0 <= i < rooms@.len() ==> room_ok(#[trigger] rooms@[i]),
            forall|i: int, j: int|
                0 <= i < j < rooms@.len() ==> !rects_intersect(rooms@[i], rooms@[j]),
        decreases MAX_ROOMS - n,
    {
        let w = rand_range_i32(ROOM_MIN_SIZE, ROOM_MAX_SIZE + 1);
        let h = rand_range_i32(ROOM_MIN_SIZE, ROOM_MAX_SIZE + 1);
        let x = rand_range_i32(0, MAP_WIDTH - w);
        let y = rand_range_i32(0, MAP_HEIGHT - h);
        let new_room = Rect::new(x, y, w, h);
        let mut failed = false;
        let mut k: usize = 0;
        while k < rooms.len()
            invariant
                k <= rooms@.len(),
                failed ==> rooms@.len() > 0,
                !failed ==> forall|j: int|
                    0 <= j < k ==> !rects_intersect(new_room, #[trigger] rooms@[j]),
            decreases rooms@.len() - k,
        {
            if new_room.intersects_with(&rooms[k]) {
                failed = true;
            }
            k = k + 1;
        }
        if !failed {
            rooms.push(new_room);
        }
        n = n + 1;
    }
    rooms
}

/// Carve the interior of one room to floor; every other tile is untouched.
pub fn create_room(room: Rect, map: &mut LevelMap)
    requires
        map_dims_ok(old(map)@),
        0 <= room.x1 < room.x2 <= MAP_WIDTH - 1,
        0 <= room.y1 < room.y2 <= MAP_HEIGHT - 1,
    ensures
        map_dims_ok(final(map)@),
        forall|x: int, y: int|
            0 <= x < MAP_WIDTH && 0 <= y < MAP_HEIGHT ==> #[trigger] tile_at(final(map)@, x, y)
                == (if room.x1 < x < room.x2 && room.y1 < y < room.y2 {
                empty_tile()
            } else {
                tile_at(old(map)@, x, y)
            }),
{
    let ghost m0 = map@;
    let mut cx: i32 = room.x1 + 1;
    while cx < room.x2
        invariant
            map_dims_ok(map@),
            0 <= room.x1 < room.x2 <= MAP_WIDTH - 1,
            0 <= room.y1 < room.y2 <= MAP_HEIGHT - 1,
            room.x1 + 1 <= cx <= room.x2,
            forall|x: int, y: int|
                0 <= x < MAP_WIDTH && 0 <= y < MAP_HEIGHT ==> #[trigger] tile_at(map@, x, y) == (
                if room.x1 < x < cx && room.y1 < y < room.y2 {
                    empty_tile()
                } else {
                    tile_at(m0, x, y)
                }),
        decreases room.x2 - cx,
    {
        let ghost mx = map@;
        let mut cy: i32 = room.y1 + 1;
        while cy < room.y2
            invariant
                map_dims_ok(map@),
                0 <= room.x1 < room.x2 <= MAP_WIDTH - 1,
                0 <= room.y1 < room.y2 <= MAP_HEIGHT - 1,
                room.x1 + 1 <= cx < room.x2,
                room.y1 + 1 <= cy <= room.y2,
                forall|x: int, y: int|
                    0 <= x < MAP_WIDTH && 0 <= y < MAP_HEIGHT ==> #[trigger] tile_at(map@, x, y)
                        == (if x == cx && room.y1 < y < cy {
                        empty_tile()
                    } else {
                        tile_at(mx, x, y)
                    }),
            decreases room.y2 - cy,
        {
            let ghost mprev = map@;
            map[cx as usize][cy as usize] = Tile::empty();
            proof {
                assert forall|x: int, y: int|
                    0 <= x < MAP_WIDTH && 0 <= y < MAP_HEIGHT implies #[trigger] tile_at(
                    map@,
                    x,
                    y,
                ) == (if x == cx && room.y1 < y < cy + 1 {
                    empty_tile()
                } else {
                    tile_at(mx, x, y)
                }) by {
                    assert(tile_at(mprev, x, y) == (if x == cx && room.y1 < y < cy {
                        empty_tile()
                    } else {
                        tile_at(mx, x, y)
                    }));
                }
            }
            cy = cy + 1;
        }
        cx = cx + 1;
    }
}

/// Carve a horizontal corridor covering both endpoints inclusively.
pub fn create_h_tunnel(x1: i32, x2: i32, y: i32, map: &mut LevelMap)
    requires
        map_dims_ok(old(map)@),
        1 <= x1 <= MAP_WIDTH - 2,
        1 <= x2 <= MAP_WIDTH - 2,
        1 <= y <= MAP_HEIGHT - 2,
    ensures
        map_dims_ok(final(map)@),
        forall|x: int, yy: int|
            0 <= x < MAP_WIDTH && 0 <= yy < MAP_HEIGHT ==> #[trigger] tile_at(final(map)@, x, yy)
                == (if yy == y && (if x1 <= x2 {
                x1 <= x <= x2
            } else {
                x2 <= x <= x1
            }) {
                empty_tile()
            } else {
                tile_at(old(map)@, x, yy)
            }),
{
    let ghost m0 = map@;
    let lo: i32 = if x1 <= x2 {
        x1
    } else {
        x2
    };
    let hi: i32 = if x1 <= x2 {
        x2
    } else {
        x1
    };
    let mut cx: i32 = lo;
    while cx <= hi
        invariant
            map_dims_ok(map@),
            1 <= lo <= cx <= hi + 1,
            hi <= MAP_WIDTH - 2,
            1 <= y <= MAP_HEIGHT - 2,
            forall|x: int, yy: int|
                0 <= x < MAP_WIDTH && 0 <= yy < MAP_HEIGHT ==> #[trigger] tile_at(map@, x, yy) == (
                if yy == y && lo <= x < cx {
                    empty_tile()
                } else {
                    tile_at(m0, x, yy)
                }),
        decreases hi + 1 - cx,
    {
        let ghost mprev = map@;
        map[cx as usize][y as usize] = Tile::empty();
        proof {
            assert forall|x: int, yy: int|
                0 <= x < MAP_WIDTH && 0 <= yy < MAP_HEIGHT implies #[trigger] tile_at(map@, x, yy)
                == (if yy == y && lo <= x < cx + 1 {
                empty_tile()
            } else {
                tile_at(m0, x, yy)
            }) by {
                assert(tile_at(mprev, x, yy) == (if yy == y && lo <= x < cx {
                    empty_tile()
                } else {
                    tile_at(m0, x, yy)
                }));
            }
        }
        cx = cx + 1;
    }
}

/// Carve a vertical corridor covering both endpoints inclusively.
pub fn create_v_tunnel(y1: i32, y2: i32, x: i32, map: &mut LevelMap)
    requires
        map_dims_ok(old(map)@),
        1 <= y1 <= MAP_HEIGHT - 2,
        1 <= y2 <= MAP_HEIGHT - 2,
        1 <= x <= MAP_WIDTH - 2,
    ensures
        map_dims_ok(final(map)@),
        forall|xx: int, y: int|
            0 <= xx < MAP_WIDTH && 0 <= y < MAP_HEIGHT ==> #[trigger] tile_at(final(map)@, xx, y)
                == (if xx == x && (if y1 <= y2 {
                y1 <= y <= y2
            } else {
                y2 <= y <= y1
            }) {
                empty_tile()
            } else {
                tile_at(old(map)@, xx, y)
            }),
{
    let ghost m0 = map@;
    let lo: i32 = if y1 <= y2 {
        y1
    } else {
        y2
    };
    let hi: i32 = if y1 <= y2 {
        y2
    } else {
        y1
    };
    let mut cy: i32 = lo;
    while cy <= hi
        invariant
            map_dims_ok(map@),
            1 <= lo <= cy <= hi + 1,
            hi <= MAP_HEIGHT - 2,
            1 <= x <= MAP_WIDTH - 2,
            forall|xx: int, y: int|
                0 <= xx < MAP_WIDTH && 0 <= y < MAP_HEIGHT ==> #[trigger] tile_at(map@, xx, y) == (
                if xx == x && lo <= y < cy {
                    empty_tile()
                } else {
                    tile_at(m0, xx, y)
                }),
        decreases hi + 1 - cy,
    {
        let ghost mprev = map@;
        map[x as usize][cy as usize] = Tile::empty();
        proof {
            assert forall|xx: int, y: int|
                0 <= xx < MAP_WIDTH && 0 <= y < MAP_HEIGHT implies #[trigger] tile_at(map@, xx, y)
                == (if xx == x && lo <= y < cy + 1 {
                empty_tile()
            } else {
                tile_at(m0, xx, y)
            }) by {
                assert(tile_at(mprev, xx, y) == (if xx == x && lo <= y < cy {
                    empty_tile()
                } else {
                    tile_at(m0, xx, y)
                }));
            }
        }
        cy = cy + 1;
    }
}

/// Combat statistics of the weaker, common monster tier.
pub open spec fn orc_fighter() -> Fighter {
    Fighter { max_hp: 10, hp: 10, defense: 0, power: 3, on_death: DeathCallBack::Monster }
}

/// Combat statistics of the stronger, rare monster tier.
pub open spec fn troll_fighter() -> Fighter {
    Fighter { max_hp: 16, hp: 16, defense: 1, power: 4, on_death: DeathCallBack::Monster }
}

/// A freshly spawned monster: alive, blocking, basic behavior, full health,
/// and one of the two tier templates.
pub open spec fn spawned_monster(o: Object) -> bool {
    &&& o.alive
    &&& o.blocks
    &&& o.ai == Some(Ai::Basic)
    &&& o.item is None
    &&& !o.always_visible
    &&& ((o.fighter == Some(orc_fighter()) && o.glyph == 'o' && o.name@ == "Orc"@) || (o.fighter
        == Some(troll_fighter()) && o.glyph == 'T' && o.name@ == "Troll"@))
}

/// A freshly spawned item entity: inert, non-blocking, one of the item kinds.
pub open spec fn spawned_item(o: Object) -> bool {
    &&& !o.alive
    &&& !o.blocks
    &&& o.fighter is None
    &&& o.ai is None
    &&& !o.always_visible
    &&& ((o.item == Some(Item::Heal) && o.name@ == "healing potion"@) || (o.item == Some(
        Item::Lightning,
    ) && o.name@ == "Scroll of lightning bolt"@) || (o.item == Some(Item::Confuse) && o.name@
        == "Scroll of confusion"@))
}

/// An entity placed by the generator inside `room` on an unblocked tile.
pub open spec fn placed_ok(o: Object, room: Rect, m: Seq<Vec<Tile>>) -> bool {
    &&& spawned_monster(o) || spawned_item(o)
    &&& room.x1 < o.x < room.x2
    &&& room.y1 < o.y < room.y2
    &&& !tile_at(m, o.x as int, o.y as int).blocked
}

/// The single stairs entity that ends every generated entity list.
pub open spec fn is_stairs(o: Object) -> bool {
    &&& o.name@ == "stairs"@
    &&& o.glyph == '<'
    &&& !o.blocks
    &&& !o.alive
    &&& o.always_visible
    &&& o.fighter is None
    &&& o.ai is None
    &&& o.item is None
}

/// Populate one room with random monsters and items, each placed only on a
/// position unobstructed at placement time.
pub fn place_objects(room: Rect, map: &LevelMap, objects: &mut Vec<Object>)
    requires
        map_dims_ok(map@),
        room_ok(room),
    ensures
        final(objects)@.len() >= old(objects)@.len(),
        // per-room caps: at most MAX_ROOM_MONSTERS monsters and
        // MAX_ROOM_ITEMS items enter the world here
        final(objects)@.len() <= old(objects)@.len() + MAX_ROOM_MONSTERS + MAX_ROOM_ITEMS,
        forall|i: int| 0 <= i < old(objects)@.len() ==> final(objects)@[i] == old(objects)@[i],
        forall|i: int|
            old(objects)@.len() <= i < final(objects)@.len() ==> placed_ok(
                #[trigger] final(objects)@[i],
                room,
                map@,
            ),
{
    let num_monsters = rand_range_i32(0, MAX_ROOM_MONSTERS + 1);
    let mut n: i32 = 0;
    while n < num_monsters
        invariant
            map_dims_ok(map@),
            room_ok(room),
            0 <= n,
            num_monsters <= MAX_ROOM_MONSTERS,
            n <= num_monsters,
            objects@.len() >= old(objects)@.len(),
            objects@.len() <= old(objects)@.len() + n,
            forall|i: int| 0 <= i < old(objects)@.len() ==> objects@[i] == old(objects)@[i],
            forall|i: int|
                old(objects)@.len() <= i < objects@.len() ==> placed_ok(
                    #[trigger] objects@[i],
                    room,
                    map@,
                ),
        decreases num_monsters - n,
    {
        let x = rand_range_i32(room.x1 + 1, room.x2);
        let y = rand_range_i32(room.y1 + 1, room.y2);
        if !is_blocked(x, y, map, objects) {
            let mut monster = if rand_ratio(4, 5) {
                let mut orc = Object::new(x, y, 'o', Color::rgb(127, 63, 63), "Orc", true);
                orc.fighter = Some(
                    Fighter { max_hp: 10, hp: 10, defense: 0, power: 3, on_death: DeathCallBack::Monster },
                );
                orc.ai = Some(Ai::Basic);
                orc
            } else {
                let mut troll = Object::new(x, y, 'T', Color::rgb(127, 0, 0), "Troll", true);
                troll.fighter = Some(
                    Fighter { max_hp: 16, hp: 16, defense: 1, power: 4, on_death: DeathCallBack::Monster },
                );
                troll.ai = Some(Ai::Basic);
                troll
            };
            monster.alive = true;
            objects.push(monster);
        }
        n = n + 1;
    }
    let num_items = rand_range_i32(0, MAX_ROOM_ITEMS + 1);
    let mut n2: i32 = 0;
    while n2 < num_items
        invariant
            map_dims_ok(map@),
            room_ok(room),
            0 <= n2,
            num_items <= MAX_ROOM_ITEMS,
            n2 <= num_items,
            objects@.len() >= old(objects)@.len(),
            objects@.len() <= old(objects)@.len() + MAX_ROOM_MONSTERS + n2,
            forall|i: int| 0 <= i < old(objects)@.len() ==> objects@[i] == old(objects)@[i],
            forall|i: int|
                old(objects)@.len() <= i < objects@.len() ==> placed_ok(
                    #[trigger] objects@[i],
                    room,
                    map@,
                ),
        decreases num_items - n2,
    {
        let x = rand_range_i32(room.x1 + 1, room.x2);
        let y = rand_range_i32(room.y1 + 1, room.y2);
        if !is_blocked(x, y, map, objects) {
            let roll = rand_range_i32(0, 100);
            let item = if roll < 70 {
                let mut object = Object::new(
                    x,
                    y,
                    'b',
                    Color::rgb(127, 0, 255),
                    "healing potion",
                    false,
                );
                object.item = Some(Item::Heal);
                object
            } else if roll < 80 {
                let mut object = Object::new(
                    x,
                    y,
                    '#',
                    Color::rgb(255, 255, 63),
                    "Scroll of lightning bolt",
                    false,
                );
                object.item = Some(Item::Lightning);
                object
            } else {
                let mut object = Object::new(
                    x,
                    y,
                    '#',
                    Color::rgb(63, 63, 255),
                    "Scroll of confusion",
                    false,
                );
                object.item = Some(Item::Confuse);
                object
            };
            objects.push(item);
        }
        n2 = n2 + 1;
    }
}

/// Every accepted room's interior has been carved to floor.
pub open spec fn rooms_carved(rooms: Seq<Rect>, m: Seq<Vec<Tile>>) -> bool {
    forall|j: int, x: int, y: int|
        #![trigger rooms[j], tile_at(m, x, y)]
        0 <= j < rooms.len() && rooms[j].x1 < x < rooms[j].x2 && rooms[j].y1 < y < rooms[j].y2
            ==> tile_at(m, x, y) == empty_tile()
}

/// The component-wise center of a room, rounded down.
pub open spec fn room_center(r: Rect) -> (int, int) {
    ((r.x1 + r.x2) / 2, (r.y1 + r.y2) / 2)
}

/// Every tile of a horizontal corridor between two columns (taken in either
/// order) has been carved to floor.
pub open spec fn h_corridor_carved(m: Seq<Vec<Tile>>, x1: int, x2: int, y: int) -> bool {
    forall|x: int|
        (if x1 <= x2 {
            x1 <= x <= x2
        } else {
            x2 <= x <= x1
        }) ==> #[trigger] tile_at(m, x, y) == empty_tile()
}

/// Every tile of a vertical corridor between two rows (taken in either
/// order) has been carved to floor.
pub open spec fn v_corridor_carved(m: Seq<Vec<Tile>>, y1: int, y2: int, x: int) -> bool {
    forall|y: int|
        (if y1 <= y2 {
            y1 <= y <= y2
        } else {
            y2 <= y <= y1
        }) ==> #[trigger] tile_at(m, x, y) == empty_tile()
}

/// Two rooms are joined by an L-shaped corridor between their centers, with
/// one of the two leg orders.
pub open spec fn corridor_between(m: Seq<Vec<Tile>>, a: Rect, b: Rect) -> bool {
    let ac = room_center(a);
    let bc = room_center(b);
    ||| (h_corridor_carved(m, ac.0, bc.0, ac.1) && v_corridor_carved(m, ac.1, bc.1, bc.0))
    ||| (v_corridor_carved(m, ac.1, bc.1, ac.0) && h_corridor_carved(m, ac.0, bc.0, bc.1))
}

/// The dungeon layout the generator promises: between one and `MAX_ROOMS`
/// accepted rooms, each sized and placed inside the outer wall, pairwise
/// non-overlapping and fully carved; consecutive rooms joined by an L-shaped
/// corridor between their centers; the player at the first room's center and
/// the stairs at the last room's center.
pub open spec fn generated_layout(
    rooms: Seq<Rect>,
    m: Seq<Vec<Tile>>,
    player: Object,
    stairs: Object,
) -> bool {
    &&& 1 <= rooms.len() <= MAX_ROOMS
    &&& forall|i: int| 0 <= i < rooms.len() ==> room_ok(#[trigger] rooms[i])
    &&& forall|i: int, j: int| 0 <= i < j < rooms.len() ==> !rects_intersect(rooms[i], rooms[j])
    &&& rooms_carved(rooms, m)
    &&& forall|t: int|
        1 <= t < rooms.len() ==> corridor_between(m, rooms[t - 1], #[trigger] rooms[t])
    &&& (player.x as int, player.y as int) == room_center(rooms[0])
    &&& (stairs.x as int, stairs.y as int) == room_center(rooms[rooms.len() - 1])
}

/// Later carving only turns tiles to floor, so a carved corridor survives it.
proof fn corridor_monotone(
    m0: Seq<Vec<Tile>>,
    m1: Seq<Vec<Tile>>,
    m2: Seq<Vec<Tile>>,
    a: Rect,
    b: Rect,
)
    requires
        room_ok(a),
        room_ok(b),
        corridor_between(m0, a, b),
        forall|x: int, y: int|
            0 <= x < MAP_WIDTH && 0 <= y < MAP_HEIGHT ==> #[trigger] tile_at(m1, x, y)
                == empty_tile() || tile_at(m1, x, y) == tile_at(m0, x, y),
        forall|x: int, y: int|
            0 <= x < MAP_WIDTH && 0 <= y < MAP_HEIGHT ==> #[trigger] tile_at(m2, x, y)
                == empty_tile() || tile_at(m2, x, y) == tile_at(m1, x, y),
    ensures
        corridor_between(m2, a, b),
{
    let ac = room_center(a);
    let bc = room_center(b);
    assert(1 <= ac.0 <= MAP_WIDTH - 2 && 1 <= bc.0 <= MAP_WIDTH - 2);
    assert(1 <= ac.1 <= MAP_HEIGHT - 2 && 1 <= bc.1 <= MAP_HEIGHT - 2);
    if h_corridor_carved(m0, ac.0, bc.0, ac.1) && v_corridor_carved(m0, ac.1, bc.1, bc.0) {
        assert forall|x: int|
            (if ac.0 <= bc.0 {
                ac.0 <= x <= bc.0
            } else {
                bc.0 <= x <= ac.0
            }) implies #[trigger] tile_at(m2, x, ac.1) == empty_tile() by {
            assert(tile_at(m0, x, ac.1) == empty_tile());
        }
        assert forall|y: int|
            (if ac.1 <= bc.1 {
                ac.1 <= y <= bc.1
            } else {
                bc.1 <= y <= ac.1
            }) implies #[trigger] tile_at(m2, bc.0, y) == empty_tile() by {
            assert(tile_at(m0, bc.0, y) == empty_tile());
        }
        assert(h_corridor_carved(m2, ac.0, bc.0, ac.1) && v_corridor_carved(m2, ac.1, bc.1, bc.0));
    } else {
        assert(v_corridor_carved(m0, ac.1, bc.1, ac.0) && h_corridor_carved(m0, ac.0, bc.0, bc.1));
        assert forall|y: int|
            (if ac.1 <= bc.1 {
                ac.1 <= y <= bc.1
            } else {
                bc.1 <= y <= ac.1
            }) implies #[trigger] tile_at(m2, ac.0, y) == empty_tile() by {
            assert(tile_at(m0, ac.0, y) == empty_tile());
        }
        assert forall|x: int|
            (if ac.0 <= bc.0 {
                ac.0 <= x <= bc.0
            } else {
                bc.0 <= x <= ac.0
            }) implies #[trigger] tile_at(m2, x, bc.1) == empty_tile() by {
            assert(tile_at(m0, x, bc.1) == empty_tile());
        }
        assert(v_corridor_carved(m2, ac.1, bc.1, ac.0) && h_corridor_carved(m2, ac.0, bc.0, bc.1));
    }
}

/// Generate one level: a fully walled grid, carved non-overlapping rooms
/// joined by L-shaped corridors, the player moved to the first room's
/// center, monsters and items placed per room, and the stairs at the last
/// room's center.
pub fn make_map(objects: &mut Vec<Object>) -> (map: LevelMap)
    requires
        old(objects)@.len() >= 1,
    ensures
        map_dims_ok(map@),
        map_walled(map@),
        final(objects)@.len() > old(objects)@.len(),
        // the player keeps everything but its position and lands on floor
        final(objects)@[0] == (Object {
            x: final(objects)@[0].x,
            y: final(objects)@[0].y,
            ..old(objects)@[0]
        }),
        1 <= final(objects)@[0].x <= MAP_WIDTH - 2,
        1 <= final(objects)@[0].y <= MAP_HEIGHT - 2,
        tile_at(map@, final(objects)@[0].x as int, final(objects)@[0].y as int) == empty_tile(),
        // entities already in the list are untouched
        forall|i: int| 1 <= i < old(objects)@.len() ==> final(objects)@[i] == old(objects)@[i],
        // everything newly placed before the stairs is a monster or item on
        // an unblocked interior tile
        forall|i: int|
            old(objects)@.len() <= i < final(objects)@.len() - 1 ==> ((spawned_monster(
                #[trigger] final(objects)@[i],
            ) || spawned_item(final(objects)@[i])) && 1 <= final(objects)@[i].x <= MAP_WIDTH - 2
                && 1 <= final(objects)@[i].y <= MAP_HEIGHT - 2 && !tile_at(
                map@,
                final(objects)@[i].x as int,
                final(objects)@[i].y as int,
            ).blocked),
        // the stairs close the list, on a carved floor tile
        is_stairs(final(objects)@.last()),
        1 <= final(objects)@.last().x <= MAP_WIDTH - 2,
        1 <= final(objects)@.last().y <= MAP_HEIGHT - 2,
        tile_at(map@, final(objects)@.last().x as int, final(objects)@.last().y as int)
            == empty_tile(),
        // the level has the generated shape: carved disjoint rooms joined by
        // corridors, the player at the first room's center, the stairs at
        // the last room's center
        exists|rooms: Seq<Rect>|
            #[trigger] generated_layout(rooms, map@, final(objects)@[0], final(objects)@.last()),
{
    // start from a grid of solid wall
    let mut map: LevelMap = Vec::new();
    let mut gx: usize = 0;
    while gx < MAP_WIDTH as usize
        invariant
            map@.len() == gx,
            gx <= MAP_WIDTH,
            forall|i: int| 0 <= i < gx ==> (#[trigger] map@[i])@.len() == MAP_HEIGHT,
            forall|i: int, j: int|
                #![trigger tile_at(map@, i, j)]
                0 <= i < gx && 0 <= j < MAP_HEIGHT ==> tile_at(map@, i, j) == wall_tile(),
        decreases MAP_WIDTH - gx,
    {
        let mut col: Vec<Tile> = Vec::new();
        let mut gy: usize = 0;
        while gy < MAP_HEIGHT as usize
            invariant
                col@.len() == gy,
                gy <= MAP_HEIGHT,
                forall|j: int| 0 <= j < gy ==> col@[j] == wall_tile(),
            decreases MAP_HEIGHT - gy,
        {
            col.push(Tile::wall());
            gy = gy + 1;
        }
        let ghost mg = map@;
        let ghost colv = col@;
        map.push(col);
        proof {
            assert forall|i: int, j: int|
                #![trigger tile_at(map@, i, j)]
                0 <= i < gx + 1 && 0 <= j < MAP_HEIGHT implies tile_at(map@, i, j)
                == wall_tile() by {
                if i < gx {
                    assert(tile_at(mg, i, j) == wall_tile());
                } else {
                    assert(map@[i]@ == colv);
                }
            }
        }
        gx = gx + 1;
    }
    let rooms = plan_rooms();
    // carve each accepted room
    let mut r: usize = 0;
    while r < rooms.len()
        invariant
            map_dims_ok(map@),
            map_walled(map@),
            1 <= rooms@.len() <= MAX_ROOMS,
            forall|i: int| 0 <= i < rooms@.len() ==> room_ok(#[trigger] rooms@[i]),
            rooms_carved(rooms@.take(r as int), map@),
            r <= rooms@.len(),
        decreases rooms@.len() - r,
    {
        let ghost mprev = map@;
        let room = rooms[r];
        create_room(room, &mut map);
        proof {
            assert forall|x: int, y: int|
                0 <= x < MAP_WIDTH && 0 <= y < MAP_HEIGHT && (x == 0 || x == MAP_WIDTH - 1 || y
                    == 0 || y == MAP_HEIGHT - 1) implies (#[trigger] tile_at(map@, x, y)).blocked by {
                assert(tile_at(mprev, x, y).blocked);
            }
            assert forall|j: int, x: int, y: int|
                #![trigger rooms@.take(r + 1 as int)[j], tile_at(map@, x, y)]
                0 <= j < r + 1 && rooms@[j].x1 < x < rooms@[j].x2 && rooms@[j].y1 < y
                    < rooms@[j].y2 implies tile_at(map@, x, y) == empty_tile() by {
                if j < r {
                    assert(rooms@.take(r as int)[j] == rooms@[j]);
                    assert(tile_at(mprev, x, y) == empty_tile());
                    assert(0 <= x < MAP_WIDTH && 0 <= y < MAP_HEIGHT);
                } else {
                    assert(0 <= x < MAP_WIDTH && 0 <= y < MAP_HEIGHT);
                }
            }
            assert(rooms_carved(rooms@.take(r + 1 as int), map@));
        }
        r = r + 1;
    }
    proof {
        assert(rooms@.take(rooms@.len() as int) =~= rooms@);
    }
    // join consecutive rooms with L-shaped corridors, orientation random
    let mut t: usize = 1;
    while t < rooms.len()
        invariant
            map_dims_ok(map@),
            map_walled(map@),
            1 <= rooms@.len() <= MAX_ROOMS,
            forall|i: int| 0 <= i < rooms@.len() ==> room_ok(#[trigger] rooms@[i]),
            rooms_carved(rooms@, map@),
            forall|u: int|
                1 <= u < t ==> corridor_between(map@, rooms@[u - 1], #[trigger] rooms@[u]),
            1 <= t,
        decreases rooms@.len() - t,
    {
        let prev = rooms[t - 1];
        let room = rooms[t];
        let (px, py) = prev.center();
        let (nx, ny) = room.center();
        proof {
            assert(1 <= px <= MAP_WIDTH - 2 && 1 <= nx <= MAP_WIDTH - 2);
            assert(1 <= py <= MAP_HEIGHT - 2 && 1 <= ny <= MAP_HEIGHT - 2);
        }
        let ghost mprev = map@;
        if rand_ratio(1, 2) {
            create_h_tunnel(px, nx, py, &mut map);
            let ghost mmid = map@;
            create_v_tunnel(py, ny, nx, &mut map);
            proof {
                carve_preserves(rooms@, mprev, mmid, map@);
                assert forall|x: int|
                    (if px <= nx {
                        px <= x <= nx
                    } else {
                        nx <= x <= px
                    }) implies #[trigger] tile_at(map@, x, py as int) == empty_tile() by {
                    assert(tile_at(mmid, x, py as int) == empty_tile());
                }
                assert(h_corridor_carved(map@, px as int, nx as int, py as int));
                assert(v_corridor_carved(map@, py as int, ny as int, nx as int));
                assert(corridor_between(map@, rooms@[t - 1], rooms@[t as int]));
                assert forall|u: int|
                    1 <= u < t + 1 implies corridor_between(
                    map@,
                    rooms@[u - 1],
                    #[trigger] rooms@[u],
                ) by {
                    if u < t {
                        corridor_monotone(mprev, mmid, map@, rooms@[u - 1], rooms@[u]);
                    }
                }
            }
        } else {
            create_v_tunnel(py, ny, px, &mut map);
            let ghost mmid = map@;
            create_h_tunnel(px, nx, ny, &mut map);
            proof {
                carve_preserves(rooms@, mprev, mmid, map@);
                assert forall|y: int|
                    (if py <= ny {
                        py <= y <= ny
                    } else {
                        ny <= y <= py
                    }) implies #[trigger] tile_at(map@, px as int, y) == empty_tile() by {
                    assert(tile_at(mmid, px as int, y) == empty_tile());
                }
                assert(v_corridor_carved(map@, py as int, ny as int, px as int));
                assert(h_corridor_carved(map@, px as int, nx as int, ny as int));
                assert(corridor_between(map@, rooms@[t - 1], rooms@[t as int]));
                assert forall|u: int|
                    1 <= u < t + 1 implies corridor_between(
                    map@,
                    rooms@[u - 1],
                    #[trigger] rooms@[u],
                ) by {
                    if u < t {
                        corridor_monotone(mprev, mmid, map@, rooms@[u - 1], rooms@[u]);
                    }
                }
            }
        }
        t = t + 1;
    }
    // the player spawns at the first room's center
    let (cx0, cy0) = rooms[0].center();
    objects[0].x = cx0;
    objects[0].y = cy0;
    proof {
        assert(objects@.len() == old(objects)@.len());
        assert(objects@ =~= old(objects)@.update(0, objects@[0]));
        assert(objects@[0] == (Object { x: cx0, y: cy0, ..old(objects)@[0] }));
        let room0 = rooms@[0];
        assert(room0.x1 < cx0 < room0.x2 && room0.y1 < cy0 < room0.y2);
        assert(tile_at(map@, cx0 as int, cy0 as int) == empty_tile());
    }
    // populate each room
    let ghost base = objects@;
    let mut p: usize = 0;
    while p < rooms.len()
        invariant
            map_dims_ok(map@),
            1 <= rooms@.len(),
            forall|i: int| 0 <= i < rooms@.len() ==> room_ok(#[trigger] rooms@[i]),
            objects@.len() >= base.len(),
            base.len() >= 1,
            forall|i: int| 0 <= i < base.len() ==> objects@[i] == base[i],
            forall|i: int|
                base.len() <= i < objects@.len() ==> ((spawned_monster(#[trigger] objects@[i])
                    || spawned_item(objects@[i])) && 1 <= objects@[i].x <= MAP_WIDTH - 2 && 1
                    <= objects@[i].y <= MAP_HEIGHT - 2 && !tile_at(
                    map@,
                    objects@[i].x as int,
                    objects@[i].y as int,
                ).blocked),
        decreases rooms@.len() - p,
    {
        let room = rooms[p];
        place_objects(room, &map, objects);
        p = p + 1;
    }
    // the stairs stand at the last room's center
    let (sx, sy) = rooms[rooms.len() - 1].center();
    let mut stairs = Object::new(sx, sy, '<', Color::rgb(255, 255, 255), "stairs", false);
    stairs.always_visible = true;
    proof {
        let rl = rooms@[rooms@.len() - 1];
        assert(rl.x1 < sx < rl.x2 && rl.y1 < sy < rl.y2);
        assert(tile_at(map@, sx as int, sy as int) == empty_tile());
    }
    objects.push(stairs);
    proof {
        assert forall|i: int| 1 <= i < old(objects)@.len() implies objects@[i] == old(
            objects,
        )@[i] by {
            assert(objects@[i] == base[i]);
            assert(base[i] == old(objects)@.update(0, base[0])[i]);
        }
        // the accepted rooms witness the generated layout
        assert((objects@[0].x as int, objects@[0].y as int) == room_center(rooms@[0]));
        assert((objects@.last().x as int, objects@.last().y as int) == room_center(
            rooms@[rooms@.len() - 1],
        ));
        assert(generated_layout(rooms@, map@, objects@[0], objects@.last()));
    }
    map
}

/// Carving twice only turns tiles to floor: carved rooms stay carved and the
/// border stays walled.
proof fn carve_preserves(rooms: Seq<Rect>, m0: Seq<Vec<Tile>>, m1: Seq<Vec<Tile>>, m2: Seq<
    Vec<Tile>,
>)
    requires
        map_walled(m0),
        rooms_carved(rooms, m0),
        forall|i: int| 0 <= i < rooms.len() ==> room_ok(#[trigger] rooms[i]),
        forall|x: int, y: int|
            0 <= x < MAP_WIDTH && 0 <= y < MAP_HEIGHT ==> #[trigger] tile_at(m1, x, y)
                == empty_tile() || tile_at(m1, x, y) == tile_at(m0, x, y),
        forall|x: int, y: int|
            0 <= x < MAP_WIDTH && 0 <= y < MAP_HEIGHT ==> #[trigger] tile_at(m2, x, y)
                == empty_tile() || tile_at(m2, x, y) == tile_at(m1, x, y),
        forall|x: int, y: int|
            0 <= x < MAP_WIDTH && 0 <= y < MAP_HEIGHT && (x == 0 || x == MAP_WIDTH - 1 || y == 0
                || y == MAP_HEIGHT - 1) ==> #[trigger] tile_at(m1, x, y) == tile_at(m0, x, y),
        forall|x: int, y: int|
            0 <= x < MAP_WIDTH && 0 <= y < MAP_HEIGHT && (x == 0 || x == MAP_WIDTH - 1 || y == 0
                || y == MAP_HEIGHT - 1) ==> #[trigger] tile_at(m2, x, y) == tile_at(m1, x, y),
    ensures
        map_walled(m2),
        rooms_carved(rooms, m2),
{
    assert forall|j: int, x: int, y: int|
        #![trigger rooms[j], tile_at(m2, x, y)]
        0 <= j < rooms.len() && rooms[j].x1 < x < rooms[j].x2 && rooms[j].y1 < y < rooms[j].y2
            implies tile_at(m2, x, y) == empty_tile() by {
        assert(room_ok(rooms[j]));
        assert(0 <= x < MAP_WIDTH && 0 <= y < MAP_HEIGHT);
        assert(tile_at(m0, x, y) == empty_tile());
    }
}

} // verus!
