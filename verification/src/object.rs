//! Entities: player, monsters, items and stairs share one record shape, with
//! optional combat stats, AI behavior and item identity. Combat (damage,
//! attack, heal) and the two death policies live here.

use vstd::prelude::*;
use vstd::string::StringExecFns;
use crate::color::{Color, white, red, green, dark_red, color_red, color_green, color_white,
    color_dark_red};
use crate::game::{Game, MAP_WIDTH, MAP_HEIGHT};
use crate::text::{u32_to_string, spec_digits};

verus! {

/// Upper bound on combat stats; keeps every damage formula inside `i32`.
pub const STAT_LIMIT: i32 = 1000000;

/// Combat statistics of an entity that can fight, take damage and die.
#[derive(Clone, Copy, Debug, PartialEq, Eq, Structural)]
pub struct Fighter {
    pub max_hp: i32,
    pub hp: i32,
    pub defense: i32,
    pub power: i32,
    pub on_death: DeathCallBack,
}

/// Which post-mortem transformation applies when hp reaches zero.
#[derive(Clone, Copy, Debug, PartialEq, Eq, Structural)]
pub enum DeathCallBack {
    Player,
    Monster,
}

/// Per-turn behavior of a non-player entity. Confusion wraps the prior
/// behavior and restores it when its turns run out; re-confusing an already
/// confused entity stacks another wrapper.
#[derive(Debug)]
pub enum Ai {
    Basic,
    Confused { previous: Box<Ai>, num_turns: i32 },
}

/// What kind of usable item an entity is.
#[derive(Clone, Copy, Debug, PartialEq, Eq, Structural)]
pub enum Item {
    Heal,
    Lightning,
    Confuse,
}

/// Outcome of using an item: consumed, or kept after a cancelled effect.
#[derive(Clone, Copy, Debug, PartialEq, Eq, Structural)]
pub enum UseResult {
    UsedUp,
    Cancelled,
}

/// Any positioned actor or item in the world.
#[derive(Debug)]
pub struct Object {
    pub x: i32,
    pub y: i32,
    pub glyph: char,
    pub color: Color,
    pub name: String,
    pub blocks: bool,
    pub alive: bool,
    pub always_visible: bool,
    pub fighter: Option<Fighter>,
    pub ai: Option<Ai>,
    pub item: Option<Item>,
}

/// Stats are non-negative, bounded, and hp never exceeds max_hp.
pub open spec fn fighter_wf(f: Fighter) -> bool {
    &&& 0 <= f.max_hp <= STAT_LIMIT
    &&& f.hp <= f.max_hp
    &&& 0 <= f.defense <= STAT_LIMIT
    &&& 0 <= f.power <= STAT_LIMIT
}

/// Confusion wrappers carry a non-negative turn count at every depth.
pub open spec fn ai_wf(a: Ai) -> bool
    decreases a,
{
    match a {
        Ai::Basic => true,
        Ai::Confused { previous, num_turns } => num_turns >= 0 && ai_wf(*previous),
    }
}

/// Entities stand strictly inside the outer wall.
pub open spec fn object_in_interior(o: Object) -> bool {
    &&& 1 <= o.x <= MAP_WIDTH - 2
    &&& 1 <= o.y <= MAP_HEIGHT - 2
}

/// One world entity is well formed: placed in the interior, bounded combat
/// stats, well-formed behavior, and item-bearing entities are inert.
pub open spec fn object_wf(o: Object) -> bool {
    &&& object_in_interior(o)
    &&& (o.fighter matches Some(f) ==> fighter_wf(f))
    &&& (o.ai matches Some(a) ==> ai_wf(a))
    &&& (o.item is Some ==> (o.fighter is None && o.ai is None && !o.blocks && !o.alive))
}

/// The world entity list is well formed: the player sits at index 0 with the
/// player death policy, and every other combat-capable entity is a live
/// monster with positive hp (the dead ones lost their combat stats).
pub open spec fn objects_wf(objs: Seq<Object>) -> bool {
    &&& objs.len() >= 1
    &&& forall|i: int| 0 <= i < objs.len() ==> object_wf(#[trigger] objs[i])
    &&& (objs[0].fighter matches Some(f) && f.on_death == DeathCallBack::Player)
    &&& objs[0].ai is None
    &&& forall|i: int|
        1 <= i < objs.len() ==> ((#[trigger] objs[i]).fighter matches Some(f) ==> (f.on_death
            == DeathCallBack::Monster && f.hp >= 1 && objs[i].alive))
}

/// Squared Euclidean distance between two points.
pub open spec fn dist_sq(x1: int, y1: int, x2: int, y2: int) -> int {
    (x2 - x1) * (x2 - x1) + (y2 - y1) * (y2 - y1)
}

/// Attack power, zero for a non-fighter (as the attack formula reads it).
pub open spec fn power_of(o: Object) -> int {
    match o.fighter {
        Some(f) => f.power as int,
        None => 0,
    }
}

/// Defense, zero for a non-fighter (as the attack formula reads it).
pub open spec fn defense_of(o: Object) -> int {
    match o.fighter {
        Some(f) => f.defense as int,
        None => 0,
    }
}

/// The "X is dead" message logged by the monster death policy.
pub open spec fn monster_death_msg(name: Seq<char>) -> Seq<char> {
    name + " is dead"@
}

/// What the monster death policy leaves behind: inert remains that keep
/// their place and item identity but can no longer fight, act or block.
pub open spec fn monster_remains_rel(pre: Object, post: Object) -> bool {
    &&& post.x == pre.x
    &&& post.y == pre.y
    &&& post.glyph == '%'
    &&& post.color == dark_red()
    &&& post.name@ == "Remains of "@ + pre.name@
    &&& post.blocks == false
    &&& post.alive == false
    &&& post.always_visible == pre.always_visible
    &&& post.fighter is None
    &&& post.ai is None
    &&& post.item == pre.item
}

/// One application of damage, including the death policy, as a relation
/// between the entity and the message log before and after.
///
/// Death fires only on the transition out of `alive`, so repeating damage on
/// a dead entity never re-invokes a death policy.
pub open spec fn damage_transition(
    pre: Object,
    damage: int,
    post: Object,
    msgs_pre: Seq<(Seq<char>, Color)>,
    msgs_post: Seq<(Seq<char>, Color)>,
) -> bool {
    match pre.fighter {
        None => post == pre && msgs_post == msgs_pre,
        Some(f) => {
            let newhp = if damage > 0 {
                f.hp - damage
            } else {
                f.hp as int
            };
            if newhp <= 0 && pre.alive {
                match f.on_death {
                    DeathCallBack::Player => {
                        &&& post == (Object {
                            glyph: '%',
                            color: dark_red(),
                            alive: false,
                            fighter: Some(Fighter { hp: newhp as i32, ..f }),
                            ..pre
                        })
                        &&& msgs_post == msgs_pre.push(("You died!"@, red()))
                    },
                    DeathCallBack::Monster => {
                        &&& monster_remains_rel(pre, post)
                        &&& msgs_post == msgs_pre.push((monster_death_msg(pre.name@), green()))
                    },
                }
            } else {
                &&& post == (Object { fighter: Some(Fighter { hp: newhp as i32, ..f }), ..pre })
                &&& msgs_post == msgs_pre
            }
        },
    }
}

/// One melee attack by an attacker with the given name and power, as a
/// relation between the defender and the message log before and after: a
/// positive power-minus-defense difference logs a hit and applies that
/// damage; otherwise nothing changes but a miss is still logged.
pub open spec fn attack_transition(
    attacker: Seq<char>,
    power: int,
    pre: Object,
    post: Object,
    msgs_pre: Seq<(Seq<char>, Color)>,
    msgs_post: Seq<(Seq<char>, Color)>,
) -> bool {
    let d = power - defense_of(pre);
    if d > 0 {
        damage_transition(
            pre,
            d,
            post,
            msgs_pre.push((attack_hit_msg(attacker, pre.name@, d as nat), white())),
            msgs_post,
        )
    } else {
        post == pre && msgs_post == msgs_pre.push(
            (attack_miss_msg(attacker, pre.name@), white()),
        )
    }
}

/// The combat log line for a landed hit.
pub open spec fn attack_hit_msg(attacker: Seq<char>, target: Seq<char>, damage: nat) -> Seq<
    char,
> {
    attacker + " attacks "@ + target + " for "@ + spec_digits(damage) + " hit points."@
}

/// The combat log line for a blocked hit.
pub open spec fn attack_miss_msg(attacker: Seq<char>, target: Seq<char>) -> Seq<char> {
    attacker + " attacks "@ + target + " but it has no effect!"@
}

impl Object {
    /// A bare entity: positioned and drawable, but without life, combat
    /// stats, behavior or item identity until a caller adds them.
    pub fn new(x: i32, y: i32, glyph: char, color: Color, name: &str, blocks: bool) -> (o: Object)
        ensures
            o.x == x,
            o.y == y,
            o.glyph == glyph,
            o.color == color,
            o.name@ == name@,
            o.blocks == blocks,
            o.alive == false,
            o.always_visible == false,
            o.fighter is None,
            o.ai is None,
            o.item is None,
    {
        Object {
            x,
            y,
            glyph,
            color,
            name: name.to_owned(),
            blocks,
            alive: false,
            always_visible: false,
            fighter: None,
            ai: None,
            item: None,
        }
    }

    pub fn pos(&self) -> (p: (i32, i32))
        ensures
            p == (self.x, self.y),
    {
        (self.x, self.y)
    }

    pub fn set_pos(&mut self, x: i32, y: i32)
        ensures
            *final(self) == (Object { x, y, ..*old(self) }),
    {
        self.x = x;
        self.y = y;
    }

    /// Squared Euclidean distance to another entity. Comparisons of true
    /// distances against thresholds are made on this value against squared
    /// thresholds, which is exact.
    pub fn distance_sq_to(&self, other: &Object) -> (d: i64)
        requires
            -1000000 <= self.x <= 1000000,
            -1000000 <= self.y <= 1000000,
            -1000000 <= other.x <= 1000000,
            -1000000 <= other.y <= 1000000,
        ensures
            d == dist_sq(self.x as int, self.y as int, other.x as int, other.y as int),
    {
        let dx: i64 = other.x as i64 - self.x as i64;
        let dy: i64 = other.y as i64 - self.y as i64;
        proof {
            assert(dx * dx + dy * dy == dist_sq(
                self.x as int,
                self.y as int,
                other.x as int,
                other.y as int,
            ) && 0 <= dx * dx <= 4000000000000 && 0 <= dy * dy <= 4000000000000)
                by (nonlinear_arith)
                requires
                    -2000000 <= dx <= 2000000,
                    -2000000 <= dy <= 2000000,
                    dx == other.x - self.x,
                    dy == other.y - self.y,
            ;
        }
        dx * dx + dy * dy
    }

    /// Apply `damage` (only if positive); on the transition to hp <= 0 of a
    /// still-alive entity, run its death policy exactly once.
    pub fn take_damage(&mut self, damage: i32, game: &mut Game)
        requires
            old(self).fighter matches Some(f) ==> (damage > 0 ==> i32::MIN <= f.hp - damage),
        ensures
            final(game).map == old(game).map,
            final(game).inventory == old(game).inventory,
            final(game).dungeon_level == old(game).dungeon_level,
            damage_transition(
                *old(self),
                damage as int,
                *final(self),
                old(game).messages@,
                final(game).messages@,
            ),
    {
        match &mut self.fighter {
            Some(f) => {
                if damage > 0 {
                    f.hp = f.hp - damage;
                }
            },
            None => {},
        }
        match self.fighter {
            Some(f) => {
                if f.hp <= 0 && self.alive {
                    self.alive = false;
                    match f.on_death {
                        DeathCallBack::Player => player_death(self, game),
                        DeathCallBack::Monster => monster_death(self, game),
                    }
                }
            },
            None => {},
        }
    }

    /// Melee attack: damage is attacker power minus defender defense, with no
    /// randomness. A non-positive difference changes nothing but still logs.
    pub fn attack(&self, target: &mut Object, game: &mut Game)
        requires
            self.fighter matches Some(f) ==> 0 <= f.power <= STAT_LIMIT,
            old(target).fighter matches Some(f) ==> (0 <= f.defense <= STAT_LIMIT && (power_of(
                *self,
            ) - f.defense > 0 ==> i32::MIN <= f.hp - (power_of(*self) - f.defense))),
        ensures
            final(game).map == old(game).map,
            final(game).inventory == old(game).inventory,
            final(game).dungeon_level == old(game).dungeon_level,
            attack_transition(
                self.name@,
                power_of(*self),
                *old(target),
                *final(target),
                old(game).messages@,
                final(game).messages@,
            ),
    {
        let power: i32 = match &self.fighter {
            Some(f) => f.power,
            None => 0,
        };
        attack_with(power, self.name.as_str(), target, game);
    }

    /// Heal by `amount`, clamped so hp never exceeds max_hp.
    pub fn heal(&mut self, amount: i32)
        requires
            0 <= amount,
            old(self).fighter matches Some(f) ==> f.hp + amount <= i32::MAX,
        ensures
            match old(self).fighter {
                None => *final(self) == *old(self),
                Some(f) => *final(self) == (Object {
                    fighter: Some(
                        Fighter {
                            hp: if f.hp + amount > f.max_hp {
                                f.max_hp
                            } else {
                                (f.hp + amount) as i32
                            },
                            ..f
                        },
                    ),
                    ..*old(self)
                }),
            },
    {
        match &mut self.fighter {
            Some(f) => {
                f.hp = f.hp + amount;
                if f.hp > f.max_hp {
                    f.hp = f.max_hp;
                }
            },
            None => {},
        }
    }
}

/// The attack body shared by `Object::attack` and the turn resolver, which
/// must attack between two entities of one collection and so reads the
/// attacker's name and power before mutating the defender.
pub(crate) fn attack_with(power: i32, attacker_name: &str, target: &mut Object, game: &mut Game)
    requires
        0 <= power <= STAT_LIMIT,
        old(target).fighter matches Some(f) ==> (0 <= f.defense <= STAT_LIMIT && (power - f.defense
            > 0 ==> i32::MIN <= f.hp - (power - f.defense))),
    ensures
        final(game).map == old(game).map,
        final(game).inventory == old(game).inventory,
        final(game).dungeon_level == old(game).dungeon_level,
        attack_transition(
            attacker_name@,
            power as int,
            *old(target),
            *final(target),
            old(game).messages@,
            final(game).messages@,
        ),
{
    let defense: i32 = match &target.fighter {
        Some(f) => f.defense,
        None => 0,
    };
    let damage = power - defense;
    if damage > 0 {
        let msg = attacker_name.to_owned().concat(" attacks ").concat(target.name.as_str()).concat(
            " for ",
        ).concat(u32_to_string(damage as u32).as_str()).concat(" hit points.");
        game.messages.add(msg, color_white());
        target.take_damage(damage, game);
    } else {
        let msg = attacker_name.to_owned().concat(" attacks ").concat(target.name.as_str()).concat(
            " but it has no effect!",
        );
        game.messages.add(msg, color_white());
    }
}

/// The melee formula is deterministic and exact: with attacker power `P`
/// and defender defense `D`, a surviving defender loses exactly `P - D` hit
/// points when that difference is positive; otherwise its record does not
/// change at all, though a miss line is still logged.
pub proof fn lemma_attack_deterministic(
    attacker: Seq<char>,
    power: int,
    pre: Object,
    post: Object,
    f: Fighter,
    m1: Seq<(Seq<char>, Color)>,
    m2: Seq<(Seq<char>, Color)>,
)
    requires
        attack_transition(attacker, power, pre, post, m1, m2),
        pre.fighter == Some(f),
        i32::MIN <= f.hp - (power - f.defense),
    ensures
        power - f.defense > 0 && f.hp - (power - f.defense) > 0 ==> post.fighter == Some(
            Fighter { hp: (f.hp - (power - f.defense)) as i32, ..f },
        ),
        power - f.defense <= 0 ==> post == pre && m2 == m1.push(
            (attack_miss_msg(attacker, pre.name@), white()),
        ),
        // a killing blow instead runs the death policy exactly once
        (power - f.defense > 0 && f.hp - (power - f.defense) <= 0 && pre.alive && f.on_death
            == DeathCallBack::Monster) ==> monster_remains_rel(pre, post),
        (power - f.defense > 0 && f.hp - (power - f.defense) <= 0 && pre.alive && f.on_death
            == DeathCallBack::Player) ==> post == (Object {
            glyph: '%',
            color: dark_red(),
            alive: false,
            fighter: Some(Fighter { hp: (f.hp - (power - f.defense)) as i32, ..f }),
            ..pre
        }),
{
}

/// Death fires at most once: damage applied to an entity that is already
/// not alive never runs a death policy again, so no further death message is
/// logged, and remains (which lost their combat stats) do not change at all.
pub proof fn lemma_death_triggers_once(
    pre: Object,
    damage: int,
    post: Object,
    m1: Seq<(Seq<char>, Color)>,
    m2: Seq<(Seq<char>, Color)>,
)
    requires
        !pre.alive,
        damage_transition(pre, damage, post, m1, m2),
    ensures
        m2 == m1,
        pre.fighter is None ==> post == pre,
        post.alive == pre.alive,
        post.name@ == pre.name@,
        post.glyph == pre.glyph,
        post.blocks == pre.blocks,
        post.ai == pre.ai,
{
}

/// Remains are inert: an entity whose monster death policy already ran has
/// no combat stats left, so further damage is a complete no-op.
pub proof fn lemma_remains_unchanged(
    pre: Object,
    damage: int,
    post: Object,
    m1: Seq<(Seq<char>, Color)>,
    m2: Seq<(Seq<char>, Color)>,
)
    requires
        pre.fighter is None,
        damage_transition(pre, damage, post, m1, m2),
    ensures
        post == pre,
        m2 == m1,
{
}

/// Player death: mark the corpse cosmetically; the record stays in place so
/// the caller can read "player not alive" and stop driving turns.
fn player_death(player: &mut Object, game: &mut Game)
    ensures
        final(game).map == old(game).map,
        final(game).inventory == old(game).inventory,
        final(game).dungeon_level == old(game).dungeon_level,
        final(game).messages@ == old(game).messages@.push(("You died!"@, red())),
        *final(player) == (Object { glyph: '%', color: dark_red(), ..*old(player) }),
{
    game.messages.add(String::from_str("You died!"), color_red());
    player.glyph = '%';
    player.color = color_dark_red();
}

/// Monster death: log, then turn the entity into permanent remains.
fn monster_death(monster: &mut Object, game: &mut Game)
    ensures
        final(game).map == old(game).map,
        final(game).inventory == old(game).inventory,
        final(game).dungeon_level == old(game).dungeon_level,
        final(game).messages@ == old(game).messages@.push(
            (monster_death_msg(old(monster).name@), green()),
        ),
        final(monster).x == old(monster).x,
        final(monster).y == old(monster).y,
        final(monster).glyph == '%',
        final(monster).color == dark_red(),
        final(monster).name@ == "Remains of "@ + old(monster).name@,
        final(monster).blocks == false,
        final(monster).alive == old(monster).alive,
        final(monster).always_visible == old(monster).always_visible,
        final(monster).fighter is None,
        final(monster).ai is None,
        final(monster).item == old(monster).item,
{
    let msg = monster.name.clone().concat(" is dead");
    game.messages.add(msg, color_green());
    monster.glyph = '%';
    monster.color = color_dark_red();
    monster.blocks = false;
    monster.fighter = None;
    monster.ai = None;
    monster.name = String::from_str("Remains of ").concat(monster.name.as_str());
}

} // verus!
