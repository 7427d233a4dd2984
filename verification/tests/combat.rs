use rogue_core::color::Color;
use rogue_core::game::{Game, Messages, Tile, MAP_HEIGHT, MAP_WIDTH};
use rogue_core::object::{DeathCallBack, Fighter, Object};

fn open_map() -> Vec<Vec<Tile>> {
    let mut map = Vec::new();
    for x in 0..MAP_WIDTH {
        let mut col = Vec::new();
        for y in 0..MAP_HEIGHT {
            if x == 0 || x == MAP_WIDTH - 1 || y == 0 || y == MAP_HEIGHT - 1 {
                col.push(Tile::wall());
            } else {
                col.push(Tile::empty());
            }
        }
        map.push(col);
    }
    map
}

fn blank_game() -> Game {
    Game { map: open_map(), messages: Messages::new(), inventory: Vec::new(), dungeon_level: 1 }
}

fn fighter(max_hp: i32, hp: i32, defense: i32, power: i32, on_death: DeathCallBack) -> Fighter {
    Fighter { max_hp, hp, defense, power, on_death }
}

fn player_at(x: i32, y: i32) -> Object {
    let mut p = Object::new(x, y, '@', Color::rgb(255, 255, 255), "player", true);
    p.alive = true;
    p.fighter = Some(fighter(30, 30, 2, 5, DeathCallBack::Player));
    p
}

fn orc_at(x: i32, y: i32) -> Object {
    let mut o = Object::new(x, y, 'o', Color::rgb(127, 63, 63), "Orc", true);
    o.alive = true;
    o.fighter = Some(fighter(10, 10, 0, 3, DeathCallBack::Monster));
    o
}

#[test]
fn attack_applies_power_minus_defense() {
    let mut game = blank_game();
    let player = player_at(10, 10);
    let mut orc = orc_at(11, 10);
    player.attack(&mut orc, &mut game);
    assert_eq!(orc.fighter.unwrap().hp, 5);
    assert_eq!(game.messages.len(), 1);
    assert_eq!(game.messages.get(0).0.as_str(), "player attacks Orc for 5 hit points.");
}

#[test]
fn blocked_attack_changes_nothing_but_still_logs() {
    let mut game = blank_game();
    let mut weakling = orc_at(10, 10);
    weakling.fighter = Some(fighter(10, 10, 0, 1, DeathCallBack::Monster));
    weakling.name = String::from("Weakling");
    let mut player = player_at(11, 10);
    // power 1 against defense 2: no effect
    weakling.attack(&mut player, &mut game);
    assert_eq!(player.fighter.unwrap().hp, 30);
    assert_eq!(game.messages.len(), 1);
    assert_eq!(
        game.messages.get(0).0.as_str(),
        "Weakling attacks player but it has no effect!"
    );
}

#[test]
fn end_to_end_two_hits_make_remains() {
    let mut game = blank_game();
    let player = player_at(10, 10);
    let mut orc = orc_at(11, 10);
    player.attack(&mut orc, &mut game);
    assert_eq!(orc.fighter.unwrap().hp, 5);
    assert!(orc.alive);
    player.attack(&mut orc, &mut game);
    // the monster dies and becomes inert remains
    assert!(!orc.alive);
    assert!(orc.fighter.is_none());
    assert!(orc.ai.is_none());
    assert!(!orc.blocks);
    assert_eq!(orc.glyph, '%');
    assert_eq!(orc.name.as_str(), "Remains of Orc");
    // two attack lines plus exactly one death line
    assert_eq!(game.messages.len(), 3);
    assert_eq!(game.messages.get(2).0.as_str(), "Orc is dead");
}

#[test]
fn death_triggers_exactly_once_for_remains() {
    let mut game = blank_game();
    let player = player_at(10, 10);
    let mut orc = orc_at(11, 10);
    player.attack(&mut orc, &mut game);
    player.attack(&mut orc, &mut game);
    let msgs_before = game.messages.len();
    let name_before = orc.name.clone();
    // repeated damage on remains is a complete no-op
    orc.take_damage(50, &mut game);
    orc.take_damage(50, &mut game);
    assert_eq!(game.messages.len(), msgs_before);
    assert_eq!(orc.name, name_before);
    assert!(!orc.alive);
    assert!(orc.fighter.is_none());
    assert_eq!(orc.glyph, '%');
}

#[test]
fn player_death_logs_once() {
    let mut game = blank_game();
    let mut player = player_at(10, 10);
    player.fighter = Some(fighter(30, 1, 2, 5, DeathCallBack::Player));
    player.take_damage(3, &mut game);
    assert!(!player.alive);
    assert_eq!(player.glyph, '%');
    assert_eq!(game.messages.len(), 1);
    assert_eq!(game.messages.get(0).0.as_str(), "You died!");
    // more damage on the dead player never re-runs the death policy
    player.take_damage(3, &mut game);
    assert_eq!(game.messages.len(), 1);
    assert_eq!(player.glyph, '%');
}

#[test]
fn heal_clamps_to_max_hp() {
    let mut o = player_at(5, 5);
    o.fighter = Some(fighter(30, 28, 2, 5, DeathCallBack::Player));
    o.heal(4);
    assert_eq!(o.fighter.unwrap().hp, 30);
    o.fighter = Some(fighter(30, 10, 2, 5, DeathCallBack::Player));
    o.heal(4);
    assert_eq!(o.fighter.unwrap().hp, 14);
}

#[test]
fn distance_squared_is_euclidean() {
    let a = player_at(3, 4);
    let b = orc_at(6, 8);
    assert_eq!(a.distance_sq_to(&b), 25);
    assert_eq!(b.distance_sq_to(&a), 25);
    assert_eq!(a.distance_sq_to(&a), 0);
}

#[test]
fn damage_only_if_positive() {
    let mut game = blank_game();
    let mut o = orc_at(9, 9);
    o.take_damage(0, &mut game);
    assert_eq!(o.fighter.unwrap().hp, 10);
    o.take_damage(-5, &mut game);
    assert_eq!(o.fighter.unwrap().hp, 10);
    assert_eq!(game.messages.len(), 0);
}
