use rogue_core::codec::{deserialize_world, serialize_world};
use rogue_core::color::Color;
use rogue_core::game::{Game, Messages, Tile};
use rogue_core::object::{Ai, DeathCallBack, Fighter, Item, Object};

fn ai_eq(a: &Ai, b: &Ai) -> bool {
    match (a, b) {
        (Ai::Basic, Ai::Basic) => true,
        (
            Ai::Confused { previous: p1, num_turns: n1 },
            Ai::Confused { previous: p2, num_turns: n2 },
        ) => n1 == n2 && ai_eq(p1, p2),
        _ => false,
    }
}

fn opt_ai_eq(a: &Option<Ai>, b: &Option<Ai>) -> bool {
    match (a, b) {
        (None, None) => true,
        (Some(x), Some(y)) => ai_eq(x, y),
        _ => false,
    }
}

fn obj_eq(a: &Object, b: &Object) -> bool {
    a.x == b.x && a.y == b.y && a.glyph == b.glyph && a.color == b.color && a.name == b.name
        && a.blocks == b.blocks && a.alive == b.alive && a.always_visible == b.always_visible
        && a.fighter == b.fighter && opt_ai_eq(&a.ai, &b.ai) && a.item == b.item
}

fn sample_world() -> (Game, Vec<Object>) {
    // a small grid with every flag combination, including explored tiles
    let map = vec![
        vec![Tile::wall(), Tile::empty(), Tile { blocked: false, block_sight: false, explored: true }],
        vec![
            Tile { blocked: true, block_sight: true, explored: true },
            Tile::empty(),
            Tile { blocked: false, block_sight: true, explored: false },
        ],
    ];
    let mut messages = Messages::new();
    messages.add(String::from("Welcome, wanderer…"), Color::rgb(255, 0, 0));
    messages.add(String::from(""), Color::rgb(0, 0, 0));
    messages.add(String::from("Orc attacks player for 1 hit points."), Color::rgb(255, 255, 255));
    let mut potion = Object::new(0, 0, 'b', Color::rgb(127, 0, 255), "healing potion", false);
    potion.item = Some(Item::Heal);
    let mut scroll = Object::new(0, 0, '#', Color::rgb(63, 63, 255), "Scroll of confusion", false);
    scroll.item = Some(Item::Confuse);
    let mut player = Object::new(1, 1, '@', Color::rgb(255, 255, 255), "player", true);
    player.alive = true;
    player.fighter = Some(Fighter {
        max_hp: 30,
        hp: 17,
        defense: 2,
        power: 5,
        on_death: DeathCallBack::Player,
    });
    let mut monster = Object::new(2, 1, 'T', Color::rgb(127, 0, 0), "Troll", true);
    monster.alive = true;
    monster.fighter = Some(Fighter {
        max_hp: 16,
        hp: 3,
        defense: 1,
        power: 4,
        on_death: DeathCallBack::Monster,
    });
    // a nested confusion: re-confused while already confused
    monster.ai = Some(Ai::Confused {
        previous: Box::new(Ai::Confused { previous: Box::new(Ai::Basic), num_turns: 2 }),
        num_turns: 10,
    });
    let mut stairs = Object::new(2, 2, '<', Color::rgb(255, 255, 255), "stairs", false);
    stairs.always_visible = true;
    let game = Game { map, messages, inventory: vec![potion], dungeon_level: 4 };
    (game, vec![player, monster, scroll, stairs])
}

#[test]
fn serialize_then_deserialize_restores_every_field() {
    let (game, objects) = sample_world();
    let blob = serialize_world(&game, &objects);
    let (game2, objects2) = deserialize_world(&blob).expect("round trip must succeed");
    assert_eq!(game2.dungeon_level, 4);
    // the grid, including the explored bitmap
    assert_eq!(game2.map.len(), game.map.len());
    for x in 0..game.map.len() {
        assert_eq!(game2.map[x].len(), game.map[x].len());
        for y in 0..game.map[x].len() {
            assert_eq!(game2.map[x][y], game.map[x][y]);
        }
    }
    // the message log
    assert_eq!(game2.messages.len(), game.messages.len());
    for i in 0..game.messages.len() {
        assert_eq!(game2.messages.get(i).0, game.messages.get(i).0);
        assert_eq!(game2.messages.get(i).1, game.messages.get(i).1);
    }
    // the inventory and the world entity list, field by field
    assert_eq!(game2.inventory.len(), game.inventory.len());
    for i in 0..game.inventory.len() {
        assert!(obj_eq(&game2.inventory[i], &game.inventory[i]));
    }
    assert_eq!(objects2.len(), objects.len());
    for i in 0..objects.len() {
        assert!(obj_eq(&objects2[i], &objects[i]));
    }
    // including the nested confusion wrapping
    match &objects2[1].ai {
        Some(Ai::Confused { previous, num_turns }) => {
            assert_eq!(*num_turns, 10);
            match &**previous {
                Ai::Confused { previous: inner, num_turns: n2 } => {
                    assert_eq!(*n2, 2);
                    assert!(matches!(**inner, Ai::Basic));
                },
                other => panic!("lost the inner wrapper: {:?}", other),
            }
        },
        other => panic!("lost the confusion: {:?}", other),
    }
}

#[test]
fn truncated_blob_is_rejected() {
    let (game, objects) = sample_world();
    let mut blob = serialize_world(&game, &objects);
    blob.truncate(blob.len() - 5);
    assert!(deserialize_world(&blob).is_none());
    blob.truncate(3);
    assert!(deserialize_world(&blob).is_none());
}

#[test]
fn trailing_garbage_is_rejected() {
    let (game, objects) = sample_world();
    let mut blob = serialize_world(&game, &objects);
    blob.push(0);
    assert!(deserialize_world(&blob).is_none());
}

#[test]
fn empty_blob_is_rejected() {
    let blob: Vec<u8> = Vec::new();
    assert!(deserialize_world(&blob).is_none());
}

#[test]
fn serialization_is_deterministic() {
    let (game, objects) = sample_world();
    let a = serialize_world(&game, &objects);
    let b = serialize_world(&game, &objects);
    assert_eq!(a, b);
}
