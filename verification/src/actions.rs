//! The turn resolver: one player intent becomes movement, melee, a pickup,
//! an item use, a drop or a level transition; then every AI-driven entity
//! takes its step.

use vstd::prelude::*;
use vstd::string::StringExecFns;
use crate::color::{Color, white, red, green, orange, violet, light_violet, light_blue,
    light_green, yellow};
use crate::game::{
    Game, LevelMap, Tile, Rect, map_dims_ok, map_walled, tile_at, spec_is_blocked, is_blocked,
    game_wf, inv_item_wf, MAP_WIDTH, MAP_HEIGHT,
};
use crate::object::{
    Object, Fighter, Ai, Item, UseResult, DeathCallBack, fighter_wf, ai_wf, object_wf,
    object_in_interior, objects_wf, power_of, defense_of, dist_sq, attack_transition, attack_with,
    damage_transition, attack_hit_msg, STAT_LIMIT,
};
use crate::fov::{Fov, fov_at, fov_dims_ok};
use crate::text::{u32_to_string, spec_digits};
use crate::rng::rand_range_i32;
use crate::mapgen::{make_map, spawned_monster, spawned_item, is_stairs, generated_layout};
use crate::game::Messages;

verus! {

/// The player always sits at this index of the world entity list.
pub const PLAYER: usize = 0;

pub const HEAL_AMOUNT: i32 = 4;

pub const LIGHTNING_DAMAGE: i32 = 40;

pub const LIGHTNING_RANGE: i32 = 6;

pub const CONFUSE_RANGE: i32 = 8;

pub const CONFUSE_NUM_TURNS: i32 = 10;

/// Outcome of resolving one player intent.
#[derive(Clone, Copy, Debug, PartialEq, Eq, Structural)]
pub enum PlayerAction {
    TookTurn,
    DidntTakeTurn,
    Exit,
}

/// Step one entity by `(dx, dy)` unless the destination is blocked by a wall
/// tile or a movement-blocking entity.
pub fn move_by(id: usize, dx: i32, dy: i32, map: &LevelMap, objects: &mut Vec<Object>)
    requires
        map_dims_ok(map@),
        map_walled(map@),
        id < old(objects)@.len(),
        object_in_interior(old(objects)@[id as int]),
        -1 <= dx <= 1,
        -1 <= dy <= 1,
    ensures
        final(objects)@ == (if spec_is_blocked(
            old(objects)@[id as int].x + dx,
            old(objects)@[id as int].y + dy,
            map@,
            old(objects)@,
        ) {
            old(objects)@
        } else {
            old(objects)@.update(
                id as int,
                Object {
                    x: (old(objects)@[id as int].x + dx) as i32,
                    y: (old(objects)@[id as int].y + dy) as i32,
                    ..old(objects)@[id as int]
                },
            )
        }),
        object_in_interior(final(objects)@[id as int]),
{
    let (x, y) = objects[id].pos();
    if !is_blocked(x + dx, y + dy, map, objects) {
        objects[id].x = x + dx;
        objects[id].y = y + dy;
        proof {
            assert(objects@ =~= old(objects)@.update(id as int, objects@[id as int]));
            // an unblocked destination cannot be a border tile
            assert(!tile_at(map@, x + dx, y + dy).blocked);
        }
    }
}

/// Which way one axis steps when the move toward a target is normalized by
/// Euclidean distance and rounded: the axis advances exactly when its share
/// of the squared distance is at least a half step.
pub open spec fn axis_step(delta: int, d2: int) -> int {
    if delta > 0 && 4 * delta * delta >= d2 {
        1
    } else if delta < 0 && 4 * delta * delta >= d2 {
        -1
    } else {
        0
    }
}

/// Step toward a target position, at most one tile per axis, the delta
/// rounded by Euclidean normalization rather than per-axis sign.
pub fn move_towards(id: usize, target_x: i32, target_y: i32, map: &LevelMap, objects: &mut Vec<
    Object,
>)
    requires
        map_dims_ok(map@),
        map_walled(map@),
        id < old(objects)@.len(),
        object_in_interior(old(objects)@[id as int]),
        0 <= target_x < MAP_WIDTH,
        0 <= target_y < MAP_HEIGHT,
        old(objects)@[id as int].x != target_x || old(objects)@[id as int].y != target_y,
    ensures
        ({
            let o = old(objects)@[id as int];
            let d2 = dist_sq(o.x as int, o.y as int, target_x as int, target_y as int);
            let sx = axis_step(target_x - o.x, d2);
            let sy = axis_step(target_y - o.y, d2);
            final(objects)@ == (if spec_is_blocked(o.x + sx, o.y + sy, map@, old(objects)@) {
                old(objects)@
            } else {
                old(objects)@.update(
                    id as int,
                    Object { x: (o.x + sx) as i32, y: (o.y + sy) as i32, ..o },
                )
            })
        }),
        object_in_interior(final(objects)@[id as int]),
{
    let (x, y) = objects[id].pos();
    let ddx: i64 = target_x as i64 - x as i64;
    let ddy: i64 = target_y as i64 - y as i64;
    proof {
        assert(0 <= ddx * ddx <= 6400 && 0 <= ddy * ddy <= 6400 && ddx * ddx + ddy * ddy
            == dist_sq(x as int, y as int, target_x as int, target_y as int) && 4 * (ddx * ddx)
            == (4 * ddx) * ddx && 4 * (ddy * ddy) == (4 * ddy) * ddy) by (nonlinear_arith)
            requires
                -80 <= ddx <= 80,
                -80 <= ddy <= 80,
                ddx == target_x - x,
                ddy == target_y - y,
        ;
    }
    let d2: i64 = ddx * ddx + ddy * ddy;
    let sx: i32 = if ddx > 0 && 4 * ddx * ddx >= d2 {
        1
    } else if ddx < 0 && 4 * ddx * ddx >= d2 {
        -1
    } else {
        0
    };
    let sy: i32 = if ddy > 0 && 4 * ddy * ddy >= d2 {
        1
    } else if ddy < 0 && 4 * ddy * ddy >= d2 {
        -1
    } else {
        0
    };
    move_by(id, sx, sy, map, objects);
}

/// The first entity with combat stats standing at `(x, y)`, scanning from
/// index `i` upward.
pub open spec fn first_fighter_at(objs: Seq<Object>, x: int, y: int, i: int) -> Option<int>
    decreases objs.len() - i,
    when 0 <= i <= objs.len()
{
    if i >= objs.len() {
        None
    } else if objs[i].fighter is Some && objs[i].x == x && objs[i].y == y {
        Some(i)
    } else {
        first_fighter_at(objs, x, y, i + 1)
    }
}

/// What a `first_fighter_at` result means: a hit names a matching entity,
/// a miss means no entity from the scan start matches.
pub proof fn lemma_first_fighter_at(objs: Seq<Object>, x: int, y: int, i: int)
    requires
        0 <= i <= objs.len(),
    ensures
        match first_fighter_at(objs, x, y, i) {
            Some(j) => i <= j < objs.len() && objs[j].fighter is Some && objs[j].x == x
                && objs[j].y == y,
            None => forall|j: int|
                i <= j < objs.len() ==> !((#[trigger] objs[j]).fighter is Some && objs[j].x == x
                    && objs[j].y == y),
        },
    decreases objs.len() - i,
{
    if i < objs.len() {
        if !(objs[i].fighter is Some && objs[i].x == x && objs[i].y == y) {
            lemma_first_fighter_at(objs, x, y, i + 1);
        }
    }
}

/// Find the first combat-capable entity standing at `(x, y)`.
fn find_fighter_at(objects: &Vec<Object>, x: i32, y: i32) -> (r: Option<usize>)
    ensures
        match r {
            Some(ti) => ti < objects@.len() && first_fighter_at(objects@, x as int, y as int, 0)
                == Some(ti as int),
            None => first_fighter_at(objects@, x as int, y as int, 0) is None,
        },
{
    let mut i: usize = 0;
    while i < objects.len()
        invariant
            i <= objects@.len(),
            first_fighter_at(objects@, x as int, y as int, 0) == first_fighter_at(
                objects@,
                x as int,
                y as int,
                i as int,
            ),
        decreases objects@.len() - i,
    {
        if objects[i].fighter.is_some() && objects[i].x == x && objects[i].y == y {
            return Some(i);
        }
        i = i + 1;
    }
    None
}

/// What one player movement intent does to the world: melee against the
/// first combat-capable entity at the destination, else a plain step.
pub open spec fn move_or_attack_rel(
    objs0: Seq<Object>,
    objs1: Seq<Object>,
    m: Seq<Vec<Tile>>,
    m0: Seq<(Seq<char>, Color)>,
    m1: Seq<(Seq<char>, Color)>,
    dx: int,
    dy: int,
) -> bool {
    let x = objs0[0].x + dx;
    let y = objs0[0].y + dy;
    match first_fighter_at(objs0, x, y, 0) {
        Some(ti) => {
            &&& 0 < ti < objs0.len()
            &&& objs1 == objs0.update(ti, objs1[ti])
            &&& attack_transition(
                objs0[0].name@,
                power_of(objs0[0]),
                objs0[ti],
                objs1[ti],
                m0,
                m1,
            )
        },
        None => {
            &&& m1 == m0
            &&& objs1 == (if spec_is_blocked(x, y, m, objs0) {
                objs0
            } else {
                objs0.update(0, Object { x: x as i32, y: y as i32, ..objs0[0] })
            })
        },
    }
}

/// Resolve a player movement intent: melee if a combat-capable entity holds
/// the destination, a plain step otherwise.
pub fn player_move_or_attack(dx: i32, dy: i32, game: &mut Game, objects: &mut Vec<Object>)
    requires
        objects_wf(old(objects)@),
        map_dims_ok(old(game).map@),
        map_walled(old(game).map@),
        -1 <= dx <= 1,
        -1 <= dy <= 1,
        !(dx == 0 && dy == 0),
    ensures
        objects_wf(final(objects)@),
        final(objects)@.len() == old(objects)@.len(),
        final(game).map == old(game).map,
        final(game).inventory == old(game).inventory,
        final(game).dungeon_level == old(game).dungeon_level,
        move_or_attack_rel(
            old(objects)@,
            final(objects)@,
            old(game).map@,
            old(game).messages@,
            final(game).messages@,
            dx as int,
            dy as int,
        ),
{
    let x = objects[PLAYER].x + dx;
    let y = objects[PLAYER].y + dy;
    let target_id = find_fighter_at(objects, x, y);
    if let Some(ti) = target_id {
        proof {
            // the destination differs from the player's own position, so the
            // target cannot be the player itself
            lemma_first_fighter_at(objects@, x as int, y as int, 0);
            assert(ti != 0);
        }
        let name = objects[PLAYER].name.clone();
        let power = match &objects[PLAYER].fighter {
            Some(f) => f.power,
            None => 0,
        };
        let ghost pre = objects@;
        let ghost msgs_pre = game.messages@;
        attack_with(power, name.as_str(), &mut objects[ti], game);
        proof {
            assert(objects@ =~= pre.update(ti as int, objects@[ti as int]));
            lemma_attack_preserves_objects_wf(
                pre,
                objects@,
                ti as int,
                pre[0].name@,
                power as int,
                msgs_pre,
                game.messages@,
            );
        }
    } else {
        move_by(PLAYER, dx, dy, &game.map, objects);
    }
}

/// A melee attack against one monster of a well-formed world keeps the
/// world well formed.
pub proof fn lemma_attack_preserves_objects_wf(
    pre: Seq<Object>,
    post: Seq<Object>,
    ti: int,
    attacker: Seq<char>,
    power: int,
    m1: Seq<(Seq<char>, Color)>,
    m2: Seq<(Seq<char>, Color)>,
)
    requires
        objects_wf(pre),
        0 <= ti < pre.len(),
        post == pre.update(ti, post[ti]),
        pre[ti].fighter matches Some(f) ==> (power - f.defense > 0 ==> i32::MIN <= f.hp - (power
            - f.defense)),
        attack_transition(attacker, power, pre[ti], post[ti], m1, m2),
    ensures
        objects_wf(post),
{
    let tpre = pre[ti];
    let d = power - defense_of(tpre);
    if d > 0 {
        lemma_damage_preserves_objects_wf(
            pre,
            post,
            ti,
            d,
            m1.push((attack_hit_msg(attacker, tpre.name@, d as nat), white())),
            m2,
        );
    } else {
        assert(post =~= pre);
    }
}

/// Damage applied to one monster of a well-formed world keeps the world
/// well formed.
pub proof fn lemma_damage_preserves_objects_wf(
    pre: Seq<Object>,
    post: Seq<Object>,
    ti: int,
    damage: int,
    m1: Seq<(Seq<char>, Color)>,
    m2: Seq<(Seq<char>, Color)>,
)
    requires
        objects_wf(pre),
        0 <= ti < pre.len(),
        post == pre.update(ti, post[ti]),
        pre[ti].fighter matches Some(f) ==> (damage > 0 ==> i32::MIN <= f.hp - damage),
        damage_transition(pre[ti], damage, post[ti], m1, m2),
    ensures
        objects_wf(post),
{
    let tpre = pre[ti];
    let tpost = post[ti];
    assert(object_wf(tpre));
    match tpre.fighter {
        None => {},
        Some(f) => {
            let newhp = if damage > 0 {
                f.hp - damage
            } else {
                f.hp as int
            };
            if newhp <= 0 && tpre.alive {
                assert(tpre.item is None);
                match f.on_death {
                    DeathCallBack::Player => {
                        assert(object_wf(tpost));
                    },
                    DeathCallBack::Monster => {
                        assert(object_wf(tpost));
                    },
                }
            } else {
                assert(object_wf(tpost));
            }
        },
    }
    assert forall|i: int| 0 <= i < post.len() implies object_wf(#[trigger] post[i]) by {
        if i != ti {
            assert(post[i] == pre[i]);
        }
    }
    assert forall|i: int|
        1 <= i < post.len() implies ((#[trigger] post[i]).fighter matches Some(f) ==> (f.on_death
        == DeathCallBack::Monster && f.hp >= 1 && post[i].alive)) by {
        if i != ti {
            assert(post[i] == pre[i]);
        }
    }
}

/// The first item-bearing entity standing at `(x, y)`, scanning from `i`.
pub open spec fn first_item_at(objs: Seq<Object>, x: int, y: int, i: int) -> Option<int>
    decreases objs.len() - i,
    when 0 <= i <= objs.len()
{
    if i >= objs.len() {
        None
    } else if objs[i].item is Some && objs[i].x == x && objs[i].y == y {
        Some(i)
    } else {
        first_item_at(objs, x, y, i + 1)
    }
}

/// What a `first_item_at` result means.
pub proof fn lemma_first_item_at(objs: Seq<Object>, x: int, y: int, i: int)
    requires
        0 <= i <= objs.len(),
    ensures
        match first_item_at(objs, x, y, i) {
            Some(j) => i <= j < objs.len() && objs[j].item is Some && objs[j].x == x && objs[j].y
                == y,
            None => forall|j: int|
                i <= j < objs.len() ==> !((#[trigger] objs[j]).item is Some && objs[j].x == x
                    && objs[j].y == y),
        },
    decreases objs.len() - i,
{
    if i < objs.len() {
        if !(objs[i].item is Some && objs[i].x == x && objs[i].y == y) {
            lemma_first_item_at(objs, x, y, i + 1);
        }
    }
}

/// Find the first item-bearing entity standing at `(x, y)`.
fn find_item_at(objects: &Vec<Object>, x: i32, y: i32) -> (r: Option<usize>)
    ensures
        match r {
            Some(ti) => ti < objects@.len() && first_item_at(objects@, x as int, y as int, 0)
                == Some(ti as int),
            None => first_item_at(objects@, x as int, y as int, 0) is None,
        },
{
    let mut i: usize = 0;
    while i < objects.len()
        invariant
            i <= objects@.len(),
            first_item_at(objects@, x as int, y as int, 0) == first_item_at(
                objects@,
                x as int,
                y as int,
                i as int,
            ),
        decreases objects@.len() - i,
    {
        if objects[i].item.is_some() && objects[i].x == x && objects[i].y == y {
            return Some(i);
        }
        i = i + 1;
    }
    None
}

/// The inventory holds at most one slot per letter of the menu alphabet.
pub const INVENTORY_CAP: usize = 26;

/// What a pickup does: against a full inventory, only a "full" log line; else
/// the world slot is swap-removed into the inventory and the pickup logged.
pub open spec fn pick_rel(
    objs0: Seq<Object>,
    objs1: Seq<Object>,
    inv0: Seq<Object>,
    inv1: Seq<Object>,
    m0: Seq<(Seq<char>, Color)>,
    m1: Seq<(Seq<char>, Color)>,
    oid: int,
) -> bool {
    if inv0.len() >= INVENTORY_CAP {
        &&& objs1 == objs0
        &&& inv1 == inv0
        &&& m1 == m0.push(("Your inventory is full"@, red()))
    } else {
        &&& objs1 == objs0.update(oid, objs0.last()).drop_last()
        &&& inv1 == inv0.push(objs0[oid])
        &&& m1 == m0.push(("You picked "@ + objs0[oid].name@, green()))
    }
}

/// Move one item-bearing entity from the world into the inventory, unless
/// the inventory is full: then log a "full" message and leave the world
/// untouched. The world slot is closed by swapping the last entity in, which
/// never disturbs the player at index 0.
pub fn pick_item_up(object_id: usize, game: &mut Game, objects: &mut Vec<Object>)
    requires
        objects_wf(old(objects)@),
        game_wf(*old(game)),
        0 < object_id < old(objects)@.len(),
        old(objects)@[object_id as int].item is Some,
    ensures
        objects_wf(final(objects)@),
        game_wf(*final(game)),
        final(game).map == old(game).map,
        final(game).dungeon_level == old(game).dungeon_level,
        pick_rel(
            old(objects)@,
            final(objects)@,
            old(game).inventory@,
            final(game).inventory@,
            old(game).messages@,
            final(game).messages@,
            object_id as int,
        ),
{
    if game.inventory.len() >= INVENTORY_CAP {
        game.messages.add(String::from_str("Your inventory is full"), Color::rgb(255, 0, 0));
    } else {
        let item = objects.swap_remove(object_id);
        let msg = String::from_str("You picked ").concat(item.name.as_str());
        game.messages.add(msg, Color::rgb(0, 255, 0));
        game.inventory.push(item);
        proof {
            let post = objects@;
            let pre = old(objects)@;
            assert forall|i: int| 0 <= i < post.len() implies object_wf(#[trigger] post[i]) by {
                assert(post[i] == pre[i] || post[i] == pre.last());
            }
            assert forall|i: int|
                1 <= i < post.len() implies ((#[trigger] post[i]).fighter matches Some(f) ==> (
            f.on_death == DeathCallBack::Monster && f.hp >= 1 && post[i].alive)) by {
                assert(post[i] == pre[i] || post[i] == pre.last());
            }
        }
    }
}

/// A potential target of an offensive scroll: a monster with combat stats
/// and a behavior, currently inside the player's field of view.
pub open spec fn monster_candidate(objs: Seq<Object>, g: Seq<Vec<bool>>, i: int) -> bool {
    &&& 0 < i < objs.len()
    &&& objs[i].fighter is Some
    &&& objs[i].ai is Some
    &&& fov_at(g, objs[i].x as int, objs[i].y as int)
}

/// Squared distance from the player to entity `i`.
pub open spec fn cand_d2(objs: Seq<Object>, i: int) -> int {
    dist_sq(objs[0].x as int, objs[0].y as int, objs[i].x as int, objs[i].y as int)
}

/// The visible monster closest to the player, if one stands strictly within
/// `max_range` plus one (comparisons are exact on squared distances).
pub fn closest_monster(fov: &Fov, objects: &Vec<Object>, max_range: i32) -> (r: Option<usize>)
    requires
        objects_wf(objects@),
        fov_dims_ok(fov.grid@),
        0 <= max_range <= 1000,
    ensures
        match r {
            Some(i) => monster_candidate(objects@, fov.grid@, i as int) && cand_d2(
                objects@,
                i as int,
            ) < (max_range + 1) * (max_range + 1) && (forall|j: int|
                #[trigger] monster_candidate(objects@, fov.grid@, j) ==> cand_d2(
                    objects@,
                    i as int,
                ) <= cand_d2(objects@, j)),
            None => forall|j: int|
                #[trigger] monster_candidate(objects@, fov.grid@, j) ==> cand_d2(objects@, j)
                    >= (max_range + 1) * (max_range + 1),
        },
{
    let range1: i64 = max_range as i64 + 1;
    proof {
        assert(range1 * range1 == (max_range + 1) * (max_range + 1) && 0 <= range1 * range1
            <= 1002001) by (nonlinear_arith)
            requires
                1 <= range1 <= 1001,
                range1 == max_range + 1,
        ;
    }
    let mut closest_enemy: Option<usize> = None;
    let mut closest_d2: i64 = range1 * range1;
    let mut i: usize = 1;
    while i < objects.len()
        invariant
            objects_wf(objects@),
            fov_dims_ok(fov.grid@),
            1 <= i <= objects@.len(),
            closest_d2 <= range1 * range1,
            match closest_enemy {
                Some(b) => monster_candidate(objects@, fov.grid@, b as int) && cand_d2(
                    objects@,
                    b as int,
                ) == closest_d2 && closest_d2 < range1 * range1 && (forall|j: int|
                    1 <= j < i && #[trigger] monster_candidate(objects@, fov.grid@, j) ==> closest_d2
                        <= cand_d2(objects@, j)),
                None => closest_d2 == range1 * range1 && (forall|j: int|
                    1 <= j < i && #[trigger] monster_candidate(objects@, fov.grid@, j) ==> cand_d2(
                        objects@,
                        j,
                    ) >= range1 * range1),
            },
        decreases objects@.len() - i,
    {
        if objects[i].fighter.is_some() && objects[i].ai.is_some() && fov.is_in_fov(
            objects[i].x,
            objects[i].y,
        ) {
            let d = objects[PLAYER].distance_sq_to(&objects[i]);
            if d < closest_d2 {
                closest_enemy = Some(i);
                closest_d2 = d;
            }
        }
        i = i + 1;
    }
    closest_enemy
}

/// The log line announcing a lightning strike.
pub open spec fn lightning_msg(name: Seq<char>) -> Seq<char> {
    "A lightning bolt strikes "@ + name + " with a loud thunder! The damage is "@ + spec_digits(
        LIGHTNING_DAMAGE as nat,
    ) + " hit points."@
}

/// The log line announcing a confusion.
pub open spec fn confuse_msg(name: Seq<char>) -> Seq<char> {
    name + " seems confused, as it starts to stumble around"@
}

/// Everything about an entity but its behavior, unchanged; the behavior is
/// wrapped in a fresh confusion that restores the prior one (basic if none).
pub open spec fn confused_object_rel(pre: Object, post: Object) -> bool {
    &&& post == (Object { ai: post.ai, ..pre })
    &&& match post.ai {
        Some(Ai::Confused { previous, num_turns }) => num_turns == CONFUSE_NUM_TURNS && *previous
            == (match pre.ai {
            Some(p) => p,
            None => Ai::Basic,
        }),
        _ => false,
    }
}

/// The healing effect: cancelled at full health (or without combat stats),
/// otherwise heal by `HEAL_AMOUNT`, clamped to max hp.
pub open spec fn heal_cast_rel(
    objs0: Seq<Object>,
    objs1: Seq<Object>,
    m0: Seq<(Seq<char>, Color)>,
    m1: Seq<(Seq<char>, Color)>,
    r: UseResult,
) -> bool {
    match objs0[0].fighter {
        Some(f) => if f.hp == f.max_hp {
            r == UseResult::Cancelled && objs1 == objs0 && m1 == m0.push(
                ("You are already at full health"@, orange()),
            )
        } else {
            &&& r == UseResult::UsedUp
            &&& objs1 == objs0.update(
                0,
                Object {
                    fighter: Some(
                        Fighter {
                            hp: if f.hp + HEAL_AMOUNT > f.max_hp {
                                f.max_hp
                            } else {
                                (f.hp + HEAL_AMOUNT) as i32
                            },
                            ..f
                        },
                    ),
                    ..objs0[0]
                },
            )
            &&& m1 == m0.push(("Your wounds start to feel better!"@, light_violet()))
        },
        None => r == UseResult::Cancelled && objs1 == objs0 && m1 == m0,
    }
}

/// The lightning effect: full damage to the closest visible monster in
/// range, cancelled when none is.
pub open spec fn lightning_cast_rel(
    objs0: Seq<Object>,
    objs1: Seq<Object>,
    g: Seq<Vec<bool>>,
    m0: Seq<(Seq<char>, Color)>,
    m1: Seq<(Seq<char>, Color)>,
    r: UseResult,
) -> bool {
    match r {
        UseResult::UsedUp => exists|ti: int|
            {
                &&& #[trigger] monster_candidate(objs0, g, ti)
                &&& cand_d2(objs0, ti) < (LIGHTNING_RANGE + 1) * (LIGHTNING_RANGE + 1)
                &&& (forall|j: int|
                    #[trigger] monster_candidate(objs0, g, j) ==> cand_d2(objs0, ti) <= cand_d2(
                        objs0,
                        j,
                    ))
                &&& objs1 == objs0.update(ti, objs1[ti])
                &&& damage_transition(
                    objs0[ti],
                    LIGHTNING_DAMAGE as int,
                    objs1[ti],
                    m0.push((lightning_msg(objs0[ti].name@), light_blue())),
                    m1,
                )
            },
        UseResult::Cancelled => {
            &&& objs1 == objs0
            &&& m1 == m0.push(("No enemy close enough"@, orange()))
            &&& (forall|j: int|
                #[trigger] monster_candidate(objs0, g, j) ==> cand_d2(objs0, j) >= (LIGHTNING_RANGE
                    + 1) * (LIGHTNING_RANGE + 1))
        },
    }
}

/// The confusion effect: wrap the closest visible monster's behavior in a
/// confusion for `CONFUSE_NUM_TURNS` turns, cancelled when none is in range.
pub open spec fn confuse_cast_rel(
    objs0: Seq<Object>,
    objs1: Seq<Object>,
    g: Seq<Vec<bool>>,
    m0: Seq<(Seq<char>, Color)>,
    m1: Seq<(Seq<char>, Color)>,
    r: UseResult,
) -> bool {
    match r {
        UseResult::UsedUp => exists|ti: int|
            {
                &&& #[trigger] monster_candidate(objs0, g, ti)
                &&& cand_d2(objs0, ti) < (CONFUSE_RANGE + 1) * (CONFUSE_RANGE + 1)
                &&& (forall|j: int|
                    #[trigger] monster_candidate(objs0, g, j) ==> cand_d2(objs0, ti) <= cand_d2(
                        objs0,
                        j,
                    ))
                &&& objs1 == objs0.update(ti, objs1[ti])
                &&& confused_object_rel(objs0[ti], objs1[ti])
                &&& m1 == m0.push((confuse_msg(objs0[ti].name@), light_green()))
            },
        UseResult::Cancelled => {
            &&& objs1 == objs0
            &&& m1 == m0.push(("No enemy in range"@, orange()))
            &&& (forall|j: int|
                #[trigger] monster_candidate(objs0, g, j) ==> cand_d2(objs0, j) >= (CONFUSE_RANGE
                    + 1) * (CONFUSE_RANGE + 1))
        },
    }
}

/// Drink a healing potion.
pub fn cast_heal(game: &mut Game, objects: &mut Vec<Object>) -> (r: UseResult)
    requires
        objects_wf(old(objects)@),
    ensures
        objects_wf(final(objects)@),
        final(objects)@.len() == old(objects)@.len(),
        final(game).map == old(game).map,
        final(game).inventory == old(game).inventory,
        final(game).dungeon_level == old(game).dungeon_level,
        heal_cast_rel(
            old(objects)@,
            final(objects)@,
            old(game).messages@,
            final(game).messages@,
            r,
        ),
{
    let pf = objects[PLAYER].fighter;
    if let Some(f) = pf {
        if f.hp == f.max_hp {
            game.messages.add(
                String::from_str("You are already at full health"),
                Color::rgb(255, 127, 0),
            );
            return UseResult::Cancelled;
        }
        game.messages.add(
            String::from_str("Your wounds start to feel better!"),
            Color::rgb(184, 114, 255),
        );
        let ghost pre = objects@;
        objects[PLAYER].heal(HEAL_AMOUNT);
        proof {
            assert(objects@ =~= pre.update(0, objects@[0]));
        }
        return UseResult::UsedUp;
    }
    UseResult::Cancelled
}

/// Strike the closest visible monster in range with lightning.
pub fn cast_lightning(game: &mut Game, objects: &mut Vec<Object>, fov: &Fov) -> (r: UseResult)
    requires
        objects_wf(old(objects)@),
        fov_dims_ok(fov.grid@),
    ensures
        objects_wf(final(objects)@),
        final(objects)@.len() == old(objects)@.len(),
        final(game).map == old(game).map,
        final(game).inventory == old(game).inventory,
        final(game).dungeon_level == old(game).dungeon_level,
        lightning_cast_rel(
            old(objects)@,
            final(objects)@,
            fov.grid@,
            old(game).messages@,
            final(game).messages@,
            r,
        ),
{
    let monster_id = closest_monster(fov, objects, LIGHTNING_RANGE);
    if let Some(mi) = monster_id {
        let msg = String::from_str("A lightning bolt strikes ").concat(
            objects[mi].name.as_str(),
        ).concat(" with a loud thunder! The damage is ").concat(
            u32_to_string(LIGHTNING_DAMAGE as u32).as_str(),
        ).concat(" hit points.");
        game.messages.add(msg, Color::rgb(63, 63, 255));
        let ghost pre = objects@;
        let ghost msgs_mid = game.messages@;
        objects[mi].take_damage(LIGHTNING_DAMAGE, game);
        proof {
            assert(objects@ =~= pre.update(mi as int, objects@[mi as int]));
            lemma_damage_preserves_objects_wf(
                pre,
                objects@,
                mi as int,
                LIGHTNING_DAMAGE as int,
                msgs_mid,
                game.messages@,
            );
        }
        UseResult::UsedUp
    } else {
        game.messages.add(String::from_str("No enemy close enough"), Color::rgb(255, 127, 0));
        UseResult::Cancelled
    }
}

/// Confuse the closest visible monster in range, stacking over whatever
/// behavior it had.
pub fn cast_confuse(game: &mut Game, objects: &mut Vec<Object>, fov: &Fov) -> (r: UseResult)
    requires
        objects_wf(old(objects)@),
        fov_dims_ok(fov.grid@),
    ensures
        objects_wf(final(objects)@),
        final(objects)@.len() == old(objects)@.len(),
        final(game).map == old(game).map,
        final(game).inventory == old(game).inventory,
        final(game).dungeon_level == old(game).dungeon_level,
        confuse_cast_rel(
            old(objects)@,
            final(objects)@,
            fov.grid@,
            old(game).messages@,
            final(game).messages@,
            r,
        ),
{
    let monster_id = closest_monster(fov, objects, CONFUSE_RANGE);
    if let Some(mi) = monster_id {
        let msg = objects[mi].name.clone().concat(" seems confused, as it starts to stumble around");
        let ghost pre = objects@;
        let m = &mut objects[mi];
        let old_ai = m.ai.take();
        let prev = match old_ai {
            Some(a) => a,
            None => Ai::Basic,
        };
        m.ai = Some(Ai::Confused { previous: Box::new(prev), num_turns: CONFUSE_NUM_TURNS });
        proof {
            assert(objects@ =~= pre.update(mi as int, objects@[mi as int]));
            assert(confused_object_rel(pre[mi as int], objects@[mi as int]));
            assert forall|i: int| 0 <= i < objects@.len() implies object_wf(
                #[trigger] objects@[i],
            ) by {
                if i != mi {
                    assert(objects@[i] == pre[i]);
                }
            }
            assert forall|i: int|
                1 <= i < objects@.len() implies ((#[trigger] objects@[i]).fighter matches Some(f)
                ==> (f.on_death == DeathCallBack::Monster && f.hp >= 1 && objects@[i].alive)) by {
                if i != mi {
                    assert(objects@[i] == pre[i]);
                }
            }
        }
        game.messages.add(msg, Color::rgb(63, 255, 63));
        UseResult::UsedUp
    } else {
        game.messages.add(String::from_str("No enemy in range"), Color::rgb(255, 127, 0));
        UseResult::Cancelled
    }
}

/// The effect an item kind selects.
pub open spec fn cast_rel(
    kind: Item,
    objs0: Seq<Object>,
    objs1: Seq<Object>,
    g: Seq<Vec<bool>>,
    m0: Seq<(Seq<char>, Color)>,
    m1: Seq<(Seq<char>, Color)>,
    r: UseResult,
) -> bool {
    match kind {
        Item::Heal => heal_cast_rel(objs0, objs1, m0, m1, r),
        Item::Lightning => lightning_cast_rel(objs0, objs1, g, m0, m1, r),
        Item::Confuse => confuse_cast_rel(objs0, objs1, g, m0, m1, r),
    }
}

/// What using one inventory slot does: a kindless entity only logs; else the
/// kind's effect runs, and the item is consumed exactly when the effect
/// reports used-up (a cancelled effect also logs a cancellation).
pub open spec fn use_item_rel(
    objs0: Seq<Object>,
    objs1: Seq<Object>,
    g: Seq<Vec<bool>>,
    inv0: Seq<Object>,
    inv1: Seq<Object>,
    m0: Seq<(Seq<char>, Color)>,
    m1: Seq<(Seq<char>, Color)>,
    id: int,
) -> bool {
    match inv0[id].item {
        None => {
            &&& objs1 == objs0
            &&& inv1 == inv0
            &&& m1 == m0.push(("The "@ + inv0[id].name@ + " cannot be used"@, white()))
        },
        Some(kind) => {
            ||| (inv1 == inv0.remove(id) && cast_rel(kind, objs0, objs1, g, m0, m1, UseResult::UsedUp))
            ||| (inv1 == inv0 && m1 == m1.drop_last().push(("Cancelled"@, white())) && cast_rel(
                kind,
                objs0,
                objs1,
                g,
                m0,
                m1.drop_last(),
                UseResult::Cancelled,
            ))
        },
    }
}

/// Use the inventory item at `inventory_id`: its kind selects the effect;
/// a used-up item leaves the inventory, a cancelled one stays and logs a
/// cancellation; an entity without item identity only logs.
pub fn use_item(inventory_id: usize, game: &mut Game, objects: &mut Vec<Object>, fov: &Fov) -> (r:
    Option<UseResult>)
    requires
        objects_wf(old(objects)@),
        game_wf(*old(game)),
        fov_dims_ok(fov.grid@),
        inventory_id < old(game).inventory@.len(),
    ensures
        objects_wf(final(objects)@),
        game_wf(*final(game)),
        final(objects)@.len() == old(objects)@.len(),
        final(game).map == old(game).map,
        final(game).dungeon_level == old(game).dungeon_level,
        r is Some <==> old(game).inventory@[inventory_id as int].item is Some,
        use_item_rel(
            old(objects)@,
            final(objects)@,
            fov.grid@,
            old(game).inventory@,
            final(game).inventory@,
            old(game).messages@,
            final(game).messages@,
            inventory_id as int,
        ),
{
    let kind = game.inventory[inventory_id].item;
    if let Some(kind) = kind {
        let result = match kind {
            Item::Heal => cast_heal(game, objects),
            Item::Lightning => cast_lightning(game, objects, fov),
            Item::Confuse => cast_confuse(game, objects, fov),
        };
        let ghost m_mid = game.messages@;
        let ghost inv_mid = game.inventory@;
        match result {
            UseResult::UsedUp => {
                game.inventory.remove(inventory_id);
                proof {
                    assert(game.inventory@ == old(game).inventory@.remove(inventory_id as int));
                    assert forall|i: int| 0 <= i < game.inventory@.len() implies inv_item_wf(
                        #[trigger] game.inventory@[i],
                    ) by {
                        if i < inventory_id {
                            assert(game.inventory@[i] == old(game).inventory@[i]);
                        } else {
                            assert(game.inventory@[i] == old(game).inventory@[i + 1]);
                        }
                    }
                }
                Some(UseResult::UsedUp)
            },
            UseResult::Cancelled => {
                game.messages.add(String::from_str("Cancelled"), Color::rgb(255, 255, 255));
                proof {
                    assert(game.messages@.drop_last() =~= m_mid);
                }
                Some(UseResult::Cancelled)
            },
        }
    } else {
        let msg = String::from_str("The ").concat(game.inventory[inventory_id].name.as_str()).concat(
            " cannot be used",
        );
        game.messages.add(msg, Color::rgb(255, 255, 255));
        None
    }
}

/// Remove the item at `inventory_id` from the inventory and put it back in
/// the world at the player's feet.
pub fn drop_item(inventory_id: usize, game: &mut Game, objects: &mut Vec<Object>)
    requires
        objects_wf(old(objects)@),
        game_wf(*old(game)),
        inventory_id < old(game).inventory@.len(),
    ensures
        objects_wf(final(objects)@),
        game_wf(*final(game)),
        final(game).map == old(game).map,
        final(game).dungeon_level == old(game).dungeon_level,
        final(game).inventory@ == old(game).inventory@.remove(inventory_id as int),
        final(objects)@ == old(objects)@.push(
            Object {
                x: old(objects)@[0].x,
                y: old(objects)@[0].y,
                ..old(game).inventory@[inventory_id as int]
            },
        ),
        final(game).messages@ == old(game).messages@.push(
            ("You dropped a "@ + old(game).inventory@[inventory_id as int].name@, yellow()),
        ),
{
    let mut item = game.inventory.remove(inventory_id);
    item.set_pos(objects[PLAYER].x, objects[PLAYER].y);
    let msg = String::from_str("You dropped a ").concat(item.name.as_str());
    game.messages.add(msg, Color::rgb(255, 255, 0));
    objects.push(item);
    proof {
        assert forall|i: int| 0 <= i < game.inventory@.len() implies inv_item_wf(
            #[trigger] game.inventory@[i],
        ) by {
            if i < inventory_id {
                assert(game.inventory@[i] == old(game).inventory@[i]);
            } else {
                assert(game.inventory@[i] == old(game).inventory@[i + 1]);
            }
        }
        let post = objects@;
        let pre = old(objects)@;
        assert forall|i: int| 0 <= i < post.len() implies object_wf(#[trigger] post[i]) by {
            if i < pre.len() {
                assert(post[i] == pre[i]);
            }
        }
        assert forall|i: int|
            1 <= i < post.len() implies ((#[trigger] post[i]).fighter matches Some(f) ==> (
        f.on_death == DeathCallBack::Monster && f.hp >= 1 && post[i].alive)) by {
            if i < pre.len() {
                assert(post[i] == pre[i]);
            }
        }
    }
}

/// A position change is all a plain move does; it keeps the world well
/// formed as long as the mover stays in the interior.
pub proof fn lemma_reposition_preserves_objects_wf(pre: Seq<Object>, post: Seq<Object>, id: int)
    requires
        objects_wf(pre),
        0 <= id < pre.len(),
        post == pre.update(id, post[id]),
        post[id] == (Object { x: post[id].x, y: post[id].y, ..pre[id] }),
        object_in_interior(post[id]),
    ensures
        objects_wf(post),
{
    assert forall|i: int| 0 <= i < post.len() implies object_wf(#[trigger] post[i]) by {
        if i != id {
            assert(post[i] == pre[i]);
        }
    }
    assert forall|i: int|
        1 <= i < post.len() implies ((#[trigger] post[i]).fighter matches Some(f) ==> (f.on_death
        == DeathCallBack::Monster && f.hp >= 1 && post[i].alive)) by {
        if i != id {
            assert(post[i] == pre[i]);
        }
    }
}

/// One basic-behavior turn: chase the player while visible and at least two
/// tiles away, strike when adjacent and the player still has hp, else idle.
pub open spec fn basic_turn_rel(
    objs0: Seq<Object>,
    objs1: Seq<Object>,
    g: Seq<Vec<bool>>,
    m: Seq<Vec<Tile>>,
    m0: Seq<(Seq<char>, Color)>,
    m1: Seq<(Seq<char>, Color)>,
    id: int,
) -> bool {
    let mon = objs0[id];
    let d2 = dist_sq(mon.x as int, mon.y as int, objs0[0].x as int, objs0[0].y as int);
    let player_has_hp = match objs0[0].fighter {
        Some(f) => f.hp > 0,
        None => false,
    };
    if !fov_at(g, mon.x as int, mon.y as int) {
        objs1 == objs0 && m1 == m0
    } else if d2 >= 4 {
        let sx = axis_step(objs0[0].x - mon.x, d2);
        let sy = axis_step(objs0[0].y - mon.y, d2);
        m1 == m0 && objs1 == (if spec_is_blocked(mon.x + sx, mon.y + sy, m, objs0) {
            objs0
        } else {
            objs0.update(id, Object { x: (mon.x + sx) as i32, y: (mon.y + sy) as i32, ..mon })
        })
    } else if player_has_hp {
        objs1 == objs0.update(0, objs1[0]) && attack_transition(
            mon.name@,
            power_of(mon),
            objs0[0],
            objs1[0],
            m0,
            m1,
        )
    } else {
        objs1 == objs0 && m1 == m0
    }
}

/// One turn of the basic monster behavior, which never transitions away.
pub fn ai_basic(monster_id: usize, fov: &Fov, game: &mut Game, objects: &mut Vec<Object>) -> (a:
    Ai)
    requires
        objects_wf(old(objects)@),
        map_dims_ok(old(game).map@),
        map_walled(old(game).map@),
        fov_dims_ok(fov.grid@),
        0 < monster_id < old(objects)@.len(),
    ensures
        objects_wf(final(objects)@),
        final(objects)@.len() == old(objects)@.len(),
        final(game).map == old(game).map,
        final(game).inventory == old(game).inventory,
        final(game).dungeon_level == old(game).dungeon_level,
        a == Ai::Basic,
        basic_turn_rel(
            old(objects)@,
            final(objects)@,
            fov.grid@,
            old(game).map@,
            old(game).messages@,
            final(game).messages@,
            monster_id as int,
        ),
{
    let (mx, my) = objects[monster_id].pos();
    if fov.is_in_fov(mx, my) {
        let d2 = objects[monster_id].distance_sq_to(&objects[PLAYER]);
        if d2 >= 4 {
            let (px, py) = objects[PLAYER].pos();
            proof {
                // a positive squared distance means the positions differ
                if mx == px && my == py {
                    assert(dist_sq(mx as int, my as int, px as int, py as int) == 0)
                        by (nonlinear_arith)
                        requires
                            mx == px,
                            my == py,
                    ;
                }
            }
            let ghost pre = objects@;
            move_towards(monster_id, px, py, &game.map, objects);
            proof {
                assert(objects@ =~= pre.update(monster_id as int, objects@[monster_id as int]));
                lemma_reposition_preserves_objects_wf(pre, objects@, monster_id as int);
            }
        } else {
            let player_has_hp = match &objects[PLAYER].fighter {
                Some(f) => f.hp > 0,
                None => false,
            };
            if player_has_hp {
                let name = objects[monster_id].name.clone();
                let power = match &objects[monster_id].fighter {
                    Some(f) => f.power,
                    None => 0,
                };
                let ghost pre = objects@;
                let ghost m0 = game.messages@;
                attack_with(power, name.as_str(), &mut objects[PLAYER], game);
                proof {
                    assert(objects@ =~= pre.update(0, objects@[0]));
                    lemma_attack_preserves_objects_wf(
                        pre,
                        objects@,
                        0,
                        pre[monster_id as int].name@,
                        power as int,
                        m0,
                        game.messages@,
                    );
                }
            }
        }
    }
    Ai::Basic
}

/// The log line when a confusion wears off.
pub open spec fn no_longer_confused_msg(name: Seq<char>) -> Seq<char> {
    "The "@ + name + " is no longer confused"@
}

/// One confused step: everything about the stepped world as a plain move by
/// a random unit offset, then the wrapper's turn count decremented in place.
pub open spec fn confused_step_rel(
    objs0: Seq<Object>,
    objs1: Seq<Object>,
    m: Seq<Vec<Tile>>,
    id: int,
) -> bool {
    exists|dx: int, dy: int|
        #![trigger spec_is_blocked(objs0[id].x + dx, objs0[id].y + dy, m, objs0)]
        -1 <= dx <= 1 && -1 <= dy <= 1 && {
            let mon = objs0[id];
            let moved = if spec_is_blocked(mon.x + dx, mon.y + dy, m, objs0) {
                objs0
            } else {
                objs0.update(id, Object { x: (mon.x + dx) as i32, y: (mon.y + dy) as i32, ..mon })
            };
            objs1 == moved.update(
                id,
                Object {
                    ai: match mon.ai {
                        Some(Ai::Confused { previous, num_turns }) => Some(
                            Ai::Confused { previous, num_turns: (num_turns - 1) as i32 },
                        ),
                        _ => mon.ai,
                    },
                    ..moved[id]
                },
            )
        }
}

/// One entity's whole AI activation: an entity without a behavior does
/// nothing, basic behavior acts per `basic_turn_rel`, a confusion with turns
/// left takes one random step and counts down, and a confusion out of turns
/// reverts to the wrapped behavior and logs exactly once.
#[verifier::opaque]
pub open spec fn take_turn_rel(
    objs0: Seq<Object>,
    objs1: Seq<Object>,
    g: Seq<Vec<bool>>,
    m: Seq<Vec<Tile>>,
    m0: Seq<(Seq<char>, Color)>,
    m1: Seq<(Seq<char>, Color)>,
    id: int,
) -> bool {
    let mon = objs0[id];
    match mon.ai {
        None => objs1 == objs0 && m1 == m0,
        Some(Ai::Basic) => basic_turn_rel(objs0, objs1, g, m, m0, m1, id),
        Some(Ai::Confused { previous, num_turns }) => if num_turns >= 1 {
            m1 == m0 && confused_step_rel(objs0, objs1, m, id)
        } else {
            &&& objs1 == objs0.update(id, Object { ai: Some(*previous), ..mon })
            &&& m1 == m0.push((no_longer_confused_msg(mon.name@), red()))
        },
    }
}

/// One position of the AI phase: entity `i` takes its turn if it carries a
/// behavior when its turn comes; otherwise the world is left untouched.
pub open spec fn phase_step(
    objs_a: Seq<Object>,
    objs_b: Seq<Object>,
    g: Seq<Vec<bool>>,
    m: Seq<Vec<Tile>>,
    ma: Seq<(Seq<char>, Color)>,
    mb: Seq<(Seq<char>, Color)>,
    i: int,
) -> bool {
    if 0 <= i < objs_a.len() && objs_a[i].ai is Some {
        take_turn_rel(objs_a, objs_b, g, m, ma, mb, i)
    } else {
        objs_b == objs_a && mb == ma
    }
}

/// A chain of intermediate worlds and logs in which entity `i`'s step takes
/// world `i` to world `i + 1`.
pub open spec fn phase_chain(
    worlds: Seq<Seq<Object>>,
    logs: Seq<Seq<(Seq<char>, Color)>>,
    g: Seq<Vec<bool>>,
    m: Seq<Vec<Tile>>,
) -> bool {
    &&& worlds.len() == logs.len()
    &&& forall|i: int|
        #![trigger worlds[i]]
        0 <= i < worlds.len() - 1 ==> phase_step(
            worlds[i],
            worlds[i + 1],
            g,
            m,
            logs[i],
            logs[i + 1],
            i,
        )
}

/// The whole AI phase over the first `k` entities, in index order: some
/// chain of intermediate worlds leads from the initial world to the final
/// one, with every entity that carries a behavior when its turn comes taking
/// exactly one `take_turn_rel` step, and every other entity changing
/// nothing.
pub open spec fn ai_phase_rel(
    objs0: Seq<Object>,
    objs1: Seq<Object>,
    g: Seq<Vec<bool>>,
    m: Seq<Vec<Tile>>,
    m0: Seq<(Seq<char>, Color)>,
    m1: Seq<(Seq<char>, Color)>,
    k: int,
) -> bool {
    exists|worlds: Seq<Seq<Object>>, logs: Seq<Seq<(Seq<char>, Color)>>|
        #![trigger phase_chain(worlds, logs, g, m)]
        {
            &&& worlds.len() == k + 1
            &&& worlds[0] == objs0
            &&& worlds[k] == objs1
            &&& logs[0] == m0
            &&& logs[k] == m1
            &&& phase_chain(worlds, logs, g, m)
        }
}

/// Extending a phase chain by one more entity's step.
proof fn lemma_phase_chain_snoc(
    worlds: Seq<Seq<Object>>,
    logs: Seq<Seq<(Seq<char>, Color)>>,
    objs_b: Seq<Object>,
    mb: Seq<(Seq<char>, Color)>,
    g: Seq<Vec<bool>>,
    m: Seq<Vec<Tile>>,
)
    requires
        worlds.len() == logs.len(),
        worlds.len() >= 1,
        phase_chain(worlds, logs, g, m),
        phase_step(worlds.last(), objs_b, g, m, logs.last(), mb, worlds.len() - 1),
    ensures
        phase_chain(worlds.push(objs_b), logs.push(mb), g, m),
{
    let w2 = worlds.push(objs_b);
    let l2 = logs.push(mb);
    assert forall|i: int|
        #![trigger w2[i]]
        0 <= i < w2.len() - 1 implies phase_step(w2[i], w2[i + 1], g, m, l2[i], l2[i + 1], i) by {
        if i < worlds.len() - 1 {
            assert(worlds[i] == worlds[i]);
            assert(w2[i] == worlds[i] && w2[i + 1] == worlds[i + 1]);
            assert(l2[i] == logs[i] && l2[i + 1] == logs[i + 1]);
        } else {
            assert(w2[i] == worlds.last() && w2[i + 1] == objs_b);
            assert(l2[i] == logs.last() && l2[i + 1] == mb);
        }
    }
}

/// Drive one AI-bearing entity for one turn: basic behavior acts; a
/// confusion with turns left takes one random step and counts down; a
/// confusion out of turns reverts to the wrapped behavior and logs once.
pub fn ai_take_turn(monster_id: usize, fov: &Fov, game: &mut Game, objects: &mut Vec<Object>)
    requires
        objects_wf(old(objects)@),
        map_dims_ok(old(game).map@),
        map_walled(old(game).map@),
        fov_dims_ok(fov.grid@),
        0 < monster_id < old(objects)@.len(),
    ensures
        objects_wf(final(objects)@),
        final(objects)@.len() == old(objects)@.len(),
        final(game).map == old(game).map,
        final(game).inventory == old(game).inventory,
        final(game).dungeon_level == old(game).dungeon_level,
        take_turn_rel(
            old(objects)@,
            final(objects)@,
            fov.grid@,
            old(game).map@,
            old(game).messages@,
            final(game).messages@,
            monster_id as int,
        ),
{
    proof {
        reveal(take_turn_rel);
    }
    let has_ai = objects[monster_id].ai.is_some();
    let is_basic = matches!(objects[monster_id].ai, Some(Ai::Basic));
    let nt: i32 = match &objects[monster_id].ai {
        Some(Ai::Confused { num_turns, .. }) => *num_turns,
        _ => 0,
    };
    if is_basic {
        ai_basic(monster_id, fov, game, objects);
    } else if has_ai {
        if nt >= 1 {
            let dx = rand_range_i32(-1, 2);
            let dy = rand_range_i32(-1, 2);
            let ghost pre = objects@;
            move_by(monster_id, dx, dy, &game.map, objects);
            proof {
                assert(objects@ =~= pre.update(monster_id as int, objects@[monster_id as int]));
                lemma_reposition_preserves_objects_wf(pre, objects@, monster_id as int);
            }
            let ghost moved = objects@;
            match &mut objects[monster_id].ai {
                Some(Ai::Confused { num_turns, .. }) => {
                    *num_turns = *num_turns - 1;
                },
                _ => {},
            }
            proof {
                assert(objects@ =~= moved.update(monster_id as int, objects@[monster_id as int]));
                assert forall|i: int| 0 <= i < objects@.len() implies object_wf(
                    #[trigger] objects@[i],
                ) by {
                    if i != monster_id {
                        assert(objects@[i] == moved[i]);
                    }
                }
                assert forall|i: int|
                    1 <= i < objects@.len() implies ((#[trigger] objects@[i]).fighter matches Some(
                    f,
                ) ==> (f.on_death == DeathCallBack::Monster && f.hp >= 1 && objects@[i].alive)) by {
                    if i != monster_id {
                        assert(objects@[i] == moved[i]);
                    }
                }
            }
        } else {
            let msg = String::from_str("The ").concat(objects[monster_id].name.as_str()).concat(
                " is no longer confused",
            );
            let ghost pre = objects@;
            let taken = objects[monster_id].ai.take();
            match taken {
                Some(Ai::Confused { previous, .. }) => {
                    objects[monster_id].ai = Some(*previous);
                },
                Some(other) => {
                    objects[monster_id].ai = Some(other);
                },
                None => {},
            }
            game.messages.add(msg, Color::rgb(255, 0, 0));
            proof {
                assert(objects@ =~= pre.update(monster_id as int, objects@[monster_id as int]));
                assert forall|i: int| 0 <= i < objects@.len() implies object_wf(
                    #[trigger] objects@[i],
                ) by {
                    if i != monster_id {
                        assert(objects@[i] == pre[i]);
                    }
                }
                assert forall|i: int|
                    1 <= i < objects@.len() implies ((#[trigger] objects@[i]).fighter matches Some(
                    f,
                ) ==> (f.on_death == DeathCallBack::Monster && f.hp >= 1 && objects@[i].alive)) by {
                    if i != monster_id {
                        assert(objects@[i] == pre[i]);
                    }
                }
            }
        }
    }
}

/// Run the AI phase: every entity with a behavior takes one step, in index
/// order. The map, the inventory and the level counter are untouched.
#[verifier::rlimit(100)]
pub fn ai_phase(fov: &Fov, game: &mut Game, objects: &mut Vec<Object>)
    requires
        objects_wf(old(objects)@),
        map_dims_ok(old(game).map@),
        map_walled(old(game).map@),
        fov_dims_ok(fov.grid@),
    ensures
        objects_wf(final(objects)@),
        final(objects)@.len() == old(objects)@.len(),
        final(game).map == old(game).map,
        final(game).inventory == old(game).inventory,
        final(game).dungeon_level == old(game).dungeon_level,
        ai_phase_rel(
            old(objects)@,
            final(objects)@,
            fov.grid@,
            old(game).map@,
            old(game).messages@,
            final(game).messages@,
            old(objects)@.len() as int,
        ),
{
    // the chain of intermediate worlds witnesses the phase relation
    let ghost mut worlds: Seq<Seq<Object>> = seq![old(objects)@];
    let ghost mut logs: Seq<Seq<(Seq<char>, Color)>> = seq![old(game).messages@];
    let mut id: usize = 0;
    while id < objects.len()
        invariant
            objects_wf(objects@),
            map_dims_ok(game.map@),
            map_walled(game.map@),
            fov_dims_ok(fov.grid@),
            objects@.len() == old(objects)@.len(),
            game.map == old(game).map,
            game.inventory == old(game).inventory,
            game.dungeon_level == old(game).dungeon_level,
            id <= objects@.len(),
            worlds.len() == id + 1,
            logs.len() == id + 1,
            worlds[0] == old(objects)@,
            logs[0] == old(game).messages@,
            worlds[id as int] == objects@,
            logs[id as int] == game.messages@,
            phase_chain(worlds, logs, fov.grid@, old(game).map@),
        decreases objects@.len() - id,
    {
        let ghost objs_pre = objects@;
        let ghost msgs_pre = game.messages@;
        if objects[id].ai.is_some() {
            proof {
                // the player carries no behavior, so this is a monster
                assert(id != 0);
            }
            ai_take_turn(id, fov, game, objects);
        }
        proof {
            assert(phase_step(
                objs_pre,
                objects@,
                fov.grid@,
                old(game).map@,
                msgs_pre,
                game.messages@,
                id as int,
            ));
            lemma_phase_chain_snoc(
                worlds,
                logs,
                objects@,
                game.messages@,
                fov.grid@,
                old(game).map@,
            );
            worlds = worlds.push(objects@);
            logs = logs.push(game.messages@);
        }
        id = id + 1;
    }
    proof {
        assert(phase_chain(worlds, logs, fov.grid@, old(game).map@));
        assert(worlds[objects@.len() as int] == objects@);
        assert(logs[objects@.len() as int] == game.messages@);
    }
}

pub const PLAYER_BASE_MAX_HP: i32 = 30;

pub const PLAYER_BASE_DEFENSE: i32 = 2;

pub const PLAYER_BASE_POWER: i32 = 5;

/// One semantic player intent, as translated by the input collaborator.
#[derive(Clone, Copy, Debug, PartialEq, Eq, Structural)]
pub enum PlayerIntent {
    Move { dx: i32, dy: i32 },
    PickUp,
    UseItem(usize),
    DropItem(usize),
    Descend,
    Exit,
    Wait,
}

/// A freshly generated entity list is well formed: the player was only
/// repositioned, everything else kept or spawned by the generator.
proof fn lemma_generated_world_wf(pre: Seq<Object>, post: Seq<Object>)
    requires
        pre.len() >= 1,
        post.len() > pre.len(),
        forall|i: int| 1 <= i < pre.len() ==> #[trigger] post[i] == pre[i],
        forall|i: int| 1 <= i < pre.len() ==> object_wf(#[trigger] pre[i]),
        forall|i: int|
            1 <= i < pre.len() ==> ((#[trigger] pre[i]).fighter matches Some(f) ==> (f.on_death
                == DeathCallBack::Monster && f.hp >= 1 && pre[i].alive)),
        post[0] == (Object { x: post[0].x, y: post[0].y, ..pre[0] }),
        1 <= post[0].x <= MAP_WIDTH - 2,
        1 <= post[0].y <= MAP_HEIGHT - 2,
        pre[0].fighter matches Some(f) && f.on_death == DeathCallBack::Player && fighter_wf(f),
        pre[0].ai is None,
        pre[0].item is None,
        forall|i: int|
            pre.len() <= i < post.len() - 1 ==> ((spawned_monster(#[trigger] post[i])
                || spawned_item(post[i])) && 1 <= post[i].x <= MAP_WIDTH - 2 && 1 <= post[i].y
                <= MAP_HEIGHT - 2),
        is_stairs(post.last()),
        1 <= post.last().x <= MAP_WIDTH - 2,
        1 <= post.last().y <= MAP_HEIGHT - 2,
    ensures
        objects_wf(post),
{
    assert forall|i: int| 0 <= i < post.len() implies object_wf(#[trigger] post[i]) by {
        if i == 0 {
        } else if i < pre.len() {
            assert(post[i] == pre[i]);
        } else if i < post.len() - 1 {
            assert(spawned_monster(post[i]) || spawned_item(post[i]));
        } else {
            assert(post[i] == post.last());
        }
    }
    assert forall|i: int|
        1 <= i < post.len() implies ((#[trigger] post[i]).fighter matches Some(f) ==> (f.on_death
        == DeathCallBack::Monster && f.hp >= 1 && post[i].alive)) by {
        if i < pre.len() {
            assert(post[i] == pre[i]);
        } else if i < post.len() - 1 {
            assert(spawned_monster(post[i]) || spawned_item(post[i]));
        } else {
            assert(post[i] == post.last());
        }
    }
}

/// Some entity named "stairs" shares the player's position.
pub open spec fn on_stairs_spec(objs: Seq<Object>) -> bool {
    exists|j: int|
        0 <= j < objs.len() && (#[trigger] objs[j]).name@ == "stairs"@ && objs[j].x == objs[0].x
            && objs[j].y == objs[0].y
}

/// Whether the player stands on the stairs.
pub fn player_on_stairs(objects: &Vec<Object>) -> (b: bool)
    requires
        objects@.len() >= 1,
    ensures
        b == on_stairs_spec(objects@),
{
    let stairs_name = String::from_str("stairs");
    let px = objects[PLAYER].x;
    let py = objects[PLAYER].y;
    let mut j: usize = 0;
    while j < objects.len()
        invariant
            objects@.len() >= 1,
            j <= objects@.len(),
            px == objects@[0].x,
            py == objects@[0].y,
            stairs_name@ == "stairs"@,
            forall|k: int|
                0 <= k < j ==> !((#[trigger] objects@[k]).name@ == "stairs"@ && objects@[k].x == px
                    && objects@[k].y == py),
        decreases objects@.len() - j,
    {
        if objects[j].name.eq(&stairs_name) && objects[j].x == px && objects[j].y == py {
            return true;
        }
        j = j + 1;
    }
    false
}

/// The player's hp after the rest that a level transition grants: healed by
/// half of max hp, clamped to max hp.
pub open spec fn healed_hp(f: Fighter) -> int {
    let amt = f.max_hp as int / 2;
    if f.hp + amt > f.max_hp {
        f.max_hp as int
    } else {
        f.hp + amt
    }
}

/// What a level transition does: rest-heal the player, log twice, bump the
/// level counter, and regenerate the map and entity placements wholesale.
pub open spec fn next_level_rel(g0: Game, g1: Game, objs0: Seq<Object>, objs1: Seq<
    Object,
>) -> bool {
    &&& g1.dungeon_level == g0.dungeon_level + 1
    &&& g1.inventory == g0.inventory
    &&& g1.messages@ == g0.messages@.push(
        ("You take a moment to rest, and recover your strength"@, violet()),
    ).push(
        ("After a rare moment of peace, you descend deeper into the heart of the dungeon..."@, red()),
    )
    &&& (objs0[0].fighter matches Some(f) ==> objs1[0].fighter == Some(
        Fighter { hp: healed_hp(f) as i32, ..f },
    ))
    &&& objs1.len() > objs0.len()
    &&& map_dims_ok(g1.map@)
    &&& map_walled(g1.map@)
    &&& exists|rooms: Seq<Rect>|
        #[trigger] generated_layout(rooms, g1.map@, objs1[0], objs1.last())
}

/// Descend to the next level: partial healing, a fresh map, new placements.
pub fn next_level(game: &mut Game, objects: &mut Vec<Object>)
    requires
        objects_wf(old(objects)@),
        game_wf(*old(game)),
        old(game).dungeon_level < u32::MAX,
    ensures
        objects_wf(final(objects)@),
        game_wf(*final(game)),
        next_level_rel(*old(game), *final(game), old(objects)@, final(objects)@),
{
    game.messages.add(
        String::from_str("You take a moment to rest, and recover your strength"),
        Color::rgb(127, 0, 255),
    );
    let heal_amount: i32 = match &objects[PLAYER].fighter {
        Some(f) => ((f.max_hp as u32) / 2) as i32,
        None => 0,
    };
    let ghost pre = objects@;
    objects[PLAYER].heal(heal_amount);
    proof {
        assert(objects@ =~= pre.update(0, objects@[0]));
        assert forall|i: int| 0 <= i < objects@.len() implies object_wf(
            #[trigger] objects@[i],
        ) by {
            if i != 0 {
                assert(objects@[i] == pre[i]);
            }
        }
        assert forall|i: int|
            1 <= i < objects@.len() implies ((#[trigger] objects@[i]).fighter matches Some(f) ==> (
        f.on_death == DeathCallBack::Monster && f.hp >= 1 && objects@[i].alive)) by {
            assert(objects@[i] == pre[i]);
        }
    }
    game.messages.add(
        String::from_str(
            "After a rare moment of peace, you descend deeper into the heart of the dungeon...",
        ),
        Color::rgb(255, 0, 0),
    );
    game.dungeon_level = game.dungeon_level + 1;
    let ghost mid = objects@;
    let new_map = make_map(objects);
    let ghost nm = new_map@;
    game.map = new_map;
    proof {
        lemma_generated_world_wf(mid, objects@);
        let rooms = choose|rooms: Seq<Rect>|
            #[trigger] generated_layout(rooms, nm, objects@[0], objects@.last());
        assert(generated_layout(rooms, game.map@, objects@[0], objects@.last()));
    }
}

/// Start a fresh run: the player entity, a generated first level, an empty
/// inventory and the welcome line in the log.
pub fn new_game() -> (r: (Game, Vec<Object>))
    ensures
        objects_wf(r.1@),
        game_wf(r.0),
        r.0.dungeon_level == 1,
        r.0.inventory@.len() == 0,
        r.0.messages@ == Seq::<(Seq<char>, Color)>::empty().push(
            ("Welcome stranger! Prepare to perish in the Maze of the Blue Medusa"@, red()),
        ),
        r.1@[0].fighter == Some(
            Fighter {
                max_hp: PLAYER_BASE_MAX_HP,
                hp: PLAYER_BASE_MAX_HP,
                defense: PLAYER_BASE_DEFENSE,
                power: PLAYER_BASE_POWER,
                on_death: DeathCallBack::Player,
            },
        ),
        r.1@[0].alive,
        r.1@[0].glyph == '@',
        r.1@[0].name@ == "player"@,
        r.1@[0].blocks,
        !tile_at(r.0.map@, r.1@[0].x as int, r.1@[0].y as int).blocked,
        // the first level has the generated shape: carved disjoint rooms
        // joined by corridors, the player and the stairs at room centers
        exists|rooms: Seq<Rect>|
            #[trigger] generated_layout(rooms, r.0.map@, r.1@[0], r.1@.last()),
{
    let mut player = Object::new(0, 0, '@', Color::rgb(255, 255, 255), "player", true);
    player.alive = true;
    player.fighter = Some(
        Fighter {
            max_hp: PLAYER_BASE_MAX_HP,
            hp: PLAYER_BASE_MAX_HP,
            defense: PLAYER_BASE_DEFENSE,
            power: PLAYER_BASE_POWER,
            on_death: DeathCallBack::Player,
        },
    );
    let mut objects: Vec<Object> = Vec::new();
    objects.push(player);
    let ghost pre = objects@;
    let map = make_map(&mut objects);
    let ghost gm = map@;
    proof {
        lemma_generated_world_wf(pre, objects@);
    }
    let mut messages = Messages::new();
    messages.add(
        String::from_str("Welcome stranger! Prepare to perish in the Maze of the Blue Medusa"),
        Color::rgb(255, 0, 0),
    );
    let game = Game { map, messages, inventory: Vec::new(), dungeon_level: 1 };
    proof {
        let rooms = choose|rooms: Seq<Rect>|
            #[trigger] generated_layout(rooms, gm, objects@[0], objects@.last());
        assert(generated_layout(rooms, game.map@, objects@[0], objects@.last()));
    }
    (game, objects)
}

/// Translate one player intent into its outcome, mutating the world
/// accordingly: the full intent table of the turn resolver.
pub fn handle_intent(intent: PlayerIntent, game: &mut Game, objects: &mut Vec<Object>, fov: &Fov)
    -> (action: PlayerAction)
    requires
        objects_wf(old(objects)@),
        game_wf(*old(game)),
        fov_dims_ok(fov.grid@),
        old(game).dungeon_level < u32::MAX,
        intent matches PlayerIntent::Move { dx, dy } ==> (-1 <= dx <= 1 && -1 <= dy <= 1 && !(dx
            == 0 && dy == 0)),
    ensures
        objects_wf(final(objects)@),
        game_wf(*final(game)),
        ({
            let objs = old(objects)@;
            let inv0 = old(game).inventory@;
            let m0 = old(game).messages@;
            let alive = objs[0].alive;
            let unchanged = final(objects)@ == objs && *final(game) == *old(game);
            match intent {
                PlayerIntent::Exit => action == PlayerAction::Exit && unchanged,
                PlayerIntent::Wait => action == PlayerAction::DidntTakeTurn && unchanged,
                PlayerIntent::Move { dx, dy } => if alive {
                    &&& action == PlayerAction::TookTurn
                    &&& final(game).map == old(game).map
                    &&& final(game).inventory == old(game).inventory
                    &&& final(game).dungeon_level == old(game).dungeon_level
                    &&& move_or_attack_rel(
                        objs,
                        final(objects)@,
                        old(game).map@,
                        m0,
                        final(game).messages@,
                        dx as int,
                        dy as int,
                    )
                } else {
                    action == PlayerAction::DidntTakeTurn && unchanged
                },
                PlayerIntent::PickUp => action == PlayerAction::DidntTakeTurn && (if alive {
                    match first_item_at(objs, objs[0].x as int, objs[0].y as int, 0) {
                        Some(oid) => final(game).map == old(game).map && final(game).dungeon_level
                            == old(game).dungeon_level && pick_rel(
                            objs,
                            final(objects)@,
                            inv0,
                            final(game).inventory@,
                            m0,
                            final(game).messages@,
                            oid,
                        ),
                        None => unchanged,
                    }
                } else {
                    unchanged
                }),
                PlayerIntent::UseItem(i) => action == PlayerAction::DidntTakeTurn && (if alive && i
                    < inv0.len() {
                    final(game).map == old(game).map && final(game).dungeon_level == old(
                        game,
                    ).dungeon_level && use_item_rel(
                        objs,
                        final(objects)@,
                        fov.grid@,
                        inv0,
                        final(game).inventory@,
                        m0,
                        final(game).messages@,
                        i as int,
                    )
                } else {
                    unchanged
                }),
                PlayerIntent::DropItem(i) => action == PlayerAction::DidntTakeTurn && (if alive
                    && i < inv0.len() {
                    &&& final(game).map == old(game).map
                    &&& final(game).dungeon_level == old(game).dungeon_level
                    &&& final(game).inventory@ == inv0.remove(i as int)
                    &&& final(objects)@ == objs.push(
                        Object { x: objs[0].x, y: objs[0].y, ..inv0[i as int] },
                    )
                    &&& final(game).messages@ == m0.push(
                        ("You dropped a "@ + inv0[i as int].name@, yellow()),
                    )
                } else {
                    unchanged
                }),
                PlayerIntent::Descend => action == PlayerAction::DidntTakeTurn && (if alive
                    && on_stairs_spec(objs) {
                    next_level_rel(*old(game), *final(game), objs, final(objects)@)
                } else {
                    unchanged
                }),
            }
        }),
{
    let player_alive = objects[PLAYER].alive;
    match intent {
        PlayerIntent::Exit => PlayerAction::Exit,
        PlayerIntent::Wait => PlayerAction::DidntTakeTurn,
        PlayerIntent::Move { dx, dy } => {
            if player_alive {
                player_move_or_attack(dx, dy, game, objects);
                PlayerAction::TookTurn
            } else {
                PlayerAction::DidntTakeTurn
            }
        },
        PlayerIntent::PickUp => {
            if player_alive {
                let px = objects[PLAYER].x;
                let py = objects[PLAYER].y;
                let item_id = find_item_at(objects, px, py);
                if let Some(oid) = item_id {
                    proof {
                        lemma_first_item_at(objects@, px as int, py as int, 0);
                        // the player bears no item identity, so this is not
                        // the player's own slot
                        assert(oid != 0);
                    }
                    pick_item_up(oid, game, objects);
                }
            }
            PlayerAction::DidntTakeTurn
        },
        PlayerIntent::UseItem(i) => {
            if player_alive && i < game.inventory.len() {
                use_item(i, game, objects, fov);
            }
            PlayerAction::DidntTakeTurn
        },
        PlayerIntent::DropItem(i) => {
            if player_alive && i < game.inventory.len() {
                drop_item(i, game, objects);
            }
            PlayerAction::DidntTakeTurn
        },
        PlayerIntent::Descend => {
            if player_alive {
                if player_on_stairs(objects) {
                    next_level(game, objects);
                }
            }
            PlayerAction::DidntTakeTurn
        },
    }
}

/// The names of the entities standing at `(x, y)` among the first `i`
/// entities, in index order, counting only currently visible ones.
pub open spec fn names_at_spec(
    objs: Seq<Object>,
    g: Seq<Vec<bool>>,
    x: int,
    y: int,
    i: int,
) -> Seq<Seq<char>>
    decreases i,
{
    if i <= 0 {
        Seq::empty()
    } else {
        names_at_spec(objs, g, x, y, i - 1) + (if objs[i - 1].x == x && objs[i - 1].y == y
            && fov_at(g, x, y) {
            seq![objs[i - 1].name@]
        } else {
            Seq::empty()
        })
    }
}

/// What the rendering collaborator shows for one hovered position: the
/// names of the visible entities standing there, in index order.
pub fn names_at(objects: &Vec<Object>, fov: &Fov, x: i32, y: i32) -> (r: Vec<String>)
    requires
        fov_dims_ok(fov.grid@),
        0 <= x < MAP_WIDTH,
        0 <= y < MAP_HEIGHT,
    ensures
        r@.map_values(|s: String| s@) == names_at_spec(
            objects@,
            fov.grid@,
            x as int,
            y as int,
            objects@.len() as int,
        ),
{
    let mut r: Vec<String> = Vec::new();
    let visible = fov.is_in_fov(x, y);
    let mut i: usize = 0;
    while i < objects.len()
        invariant
            i <= objects@.len(),
            fov_dims_ok(fov.grid@),
            0 <= x < MAP_WIDTH,
            0 <= y < MAP_HEIGHT,
            visible == fov_at(fov.grid@, x as int, y as int),
            r@.map_values(|s: String| s@) == names_at_spec(
                objects@,
                fov.grid@,
                x as int,
                y as int,
                i as int,
            ),
        decreases objects@.len() - i,
    {
        let ghost prev = r@;
        if objects[i].x == x && objects[i].y == y && visible {
            r.push(objects[i].name.clone());
        }
        proof {
            assert(r@.map_values(|s: String| s@) =~= names_at_spec(
                objects@,
                fov.grid@,
                x as int,
                y as int,
                i + 1,
            ));
        }
        i = i + 1;
    }
    r
}

/// Whether one behavior value is well formed, at every nesting depth.
fn check_ai(a: &Ai) -> (r: bool)
    ensures
        r == ai_wf(*a),
    decreases *a,
{
    match a {
        Ai::Basic => true,
        Ai::Confused { previous, num_turns } => *num_turns >= 0 && check_ai(previous),
    }
}

/// Whether one entity record satisfies the library's invariants.
fn check_object(o: &Object) -> (r: bool)
    ensures
        r == object_wf(*o),
{
    let pos_ok = 1 <= o.x && o.x <= MAP_WIDTH - 2 && 1 <= o.y && o.y <= MAP_HEIGHT - 2;
    let fighter_ok = match &o.fighter {
        Some(f) => 0 <= f.max_hp && f.max_hp <= STAT_LIMIT && f.hp <= f.max_hp && 0 <= f.defense
            && f.defense <= STAT_LIMIT && 0 <= f.power && f.power <= STAT_LIMIT,
        None => true,
    };
    let ai_ok = match &o.ai {
        Some(a) => check_ai(a),
        None => true,
    };
    let item_ok = match &o.item {
        Some(_) => o.fighter.is_none() && o.ai.is_none() && !o.blocks && !o.alive,
        None => true,
    };
    pos_ok && fighter_ok && ai_ok && item_ok
}

/// Whether a grid has the expected dimensions and a fully walled border.
fn check_map(map: &LevelMap) -> (r: bool)
    ensures
        r == (map_dims_ok(map@) && map_walled(map@)),
{
    if map.len() != MAP_WIDTH as usize {
        return false;
    }
    let mut x: usize = 0;
    while x < map.len()
        invariant
            map@.len() == MAP_WIDTH,
            x <= map@.len(),
            forall|i: int| 0 <= i < x ==> (#[trigger] map@[i])@.len() == MAP_HEIGHT,
        decreases map@.len() - x,
    {
        if map[x].len() != MAP_HEIGHT as usize {
            return false;
        }
        x = x + 1;
    }
    let mut x2: usize = 0;
    while x2 < map.len()
        invariant
            map_dims_ok(map@),
            x2 <= map@.len(),
            forall|i: int|
                #![trigger map@[i]]
                0 <= i < x2 ==> tile_at(map@, i, 0).blocked && tile_at(
                    map@,
                    i,
                    MAP_HEIGHT - 1,
                ).blocked,
        decreases map@.len() - x2,
    {
        if !map[x2][0].blocked || !map[x2][MAP_HEIGHT as usize - 1].blocked {
            proof {
                assert(!tile_at(map@, x2 as int, 0).blocked || !tile_at(
                    map@,
                    x2 as int,
                    MAP_HEIGHT - 1,
                ).blocked);
            }
            return false;
        }
        x2 = x2 + 1;
    }
    let mut y: usize = 0;
    while y < MAP_HEIGHT as usize
        invariant
            map_dims_ok(map@),
            y <= MAP_HEIGHT,
            forall|i: int|
                #![trigger map@[i]]
                0 <= i < map@.len() ==> tile_at(map@, i, 0).blocked && tile_at(
                    map@,
                    i,
                    MAP_HEIGHT - 1,
                ).blocked,
            forall|j: int|
                #![trigger map@[0]@[j]]
                0 <= j < y ==> tile_at(map@, 0, j).blocked && tile_at(
                    map@,
                    MAP_WIDTH - 1,
                    j,
                ).blocked,
        decreases MAP_HEIGHT - y,
    {
        if !map[0][y].blocked || !map[MAP_WIDTH as usize - 1][y].blocked {
            proof {
                assert(!tile_at(map@, 0, y as int).blocked || !tile_at(
                    map@,
                    MAP_WIDTH - 1,
                    y as int,
                ).blocked);
            }
            return false;
        }
        proof {
            assert(tile_at(map@, 0, y as int).blocked && tile_at(
                map@,
                MAP_WIDTH - 1,
                y as int,
            ).blocked);
            assert forall|j: int|
                #![trigger map@[0]@[j]]
                0 <= j < y + 1 implies tile_at(map@, 0, j).blocked && tile_at(
                map@,
                MAP_WIDTH - 1,
                j,
            ).blocked by {
                if j < y {
                    // name the element so the invariant's trigger fires
                    let border_tile = map@[0]@[j];
                    assert(tile_at(map@, 0, j).blocked && tile_at(map@, MAP_WIDTH - 1, j).blocked);
                }
            }
        }
        y = y + 1;
    }
    proof {
        assert forall|i: int, j: int|
            0 <= i < MAP_WIDTH && 0 <= j < MAP_HEIGHT && (i == 0 || i == MAP_WIDTH - 1 || j == 0
                || j == MAP_HEIGHT - 1) implies (#[trigger] tile_at(map@, i, j)).blocked by {
            if j == 0 || j == MAP_HEIGHT - 1 {
                assert(map@[i] == map@[i]);
            }
        }
    }
    true
}

/// Check a whole world snapshot against the library's invariants, so an
/// untrusted save blob can be validated before play resumes on it.
pub fn validate_world(game: &Game, objects: &Vec<Object>) -> (r: bool)
    ensures
        r == (objects_wf(objects@) && game_wf(*game)),
{
    if objects.len() == 0 {
        return false;
    }
    let player_ok = match &objects[0].fighter {
        Some(f) => matches!(f.on_death, DeathCallBack::Player),
        None => false,
    };
    if !player_ok || objects[0].ai.is_some() {
        return false;
    }
    let mut i: usize = 0;
    while i < objects.len()
        invariant
            objects@.len() >= 1,
            i <= objects@.len(),
            forall|k: int| 0 <= k < i ==> object_wf(#[trigger] objects@[k]),
            forall|k: int|
                1 <= k < i ==> ((#[trigger] objects@[k]).fighter matches Some(f) ==> (f.on_death
                    == DeathCallBack::Monster && f.hp >= 1 && objects@[k].alive)),
        decreases objects@.len() - i,
    {
        if !check_object(&objects[i]) {
            return false;
        }
        if i > 0 {
            let monster_ok = match &objects[i].fighter {
                Some(f) => matches!(f.on_death, DeathCallBack::Monster) && f.hp >= 1
                    && objects[i].alive,
                None => true,
            };
            if !monster_ok {
                return false;
            }
        }
        i = i + 1;
    }
    if !check_map(&game.map) {
        return false;
    }
    let mut j: usize = 0;
    while j < game.inventory.len()
        invariant
            j <= game.inventory@.len(),
            forall|k: int| 0 <= k < j ==> inv_item_wf(#[trigger] game.inventory@[k]),
        decreases game.inventory@.len() - j,
    {
        let it = &game.inventory[j];
        if !(it.item.is_some() && it.fighter.is_none() && it.ai.is_none() && !it.blocks
            && !it.alive) {
            return false;
        }
        j = j + 1;
    }
    true
}

/// Run the AI phase only when the player is alive and actually took a turn;
/// otherwise the world is untouched.
pub fn ai_turn(action: PlayerAction, fov: &Fov, game: &mut Game, objects: &mut Vec<Object>)
    requires
        objects_wf(old(objects)@),
        map_dims_ok(old(game).map@),
        map_walled(old(game).map@),
        fov_dims_ok(fov.grid@),
    ensures
        objects_wf(final(objects)@),
        final(objects)@.len() == old(objects)@.len(),
        final(game).map == old(game).map,
        final(game).inventory == old(game).inventory,
        final(game).dungeon_level == old(game).dungeon_level,
        !(old(objects)@[0].alive && action == PlayerAction::TookTurn) ==> (final(objects)@ == old(
            objects,
        )@ && *final(game) == *old(game)),
        old(objects)@[0].alive && action == PlayerAction::TookTurn ==> ai_phase_rel(
            old(objects)@,
            final(objects)@,
            fov.grid@,
            old(game).map@,
            old(game).messages@,
            final(game).messages@,
            old(objects)@.len() as int,
        ),
{
    if objects[PLAYER].alive && matches!(action, PlayerAction::TookTurn) {
        ai_phase(fov, game, objects);
    }
}

} // verus!
