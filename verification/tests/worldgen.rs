use rogue_core::actions::new_game;
use rogue_core::color::Color;
use rogue_core::game::{MAP_HEIGHT, MAP_WIDTH};
use rogue_core::mapgen::{make_map, plan_rooms, ROOM_MAX_SIZE, ROOM_MIN_SIZE};
use rogue_core::object::{DeathCallBack, Fighter, Object};

#[test]
fn planned_rooms_never_overlap() {
    for _ in 0..5 {
        let rooms = plan_rooms();
        assert!(rooms.len() >= 1);
        for i in 0..rooms.len() {
            for j in 0..rooms.len() {
                if i != j {
                    assert!(!rooms[i].intersects_with(&rooms[j]));
                }
            }
        }
    }
}

#[test]
fn planned_rooms_sized_and_inside() {
    let rooms = plan_rooms();
    for r in &rooms {
        let w = r.x2 - r.x1;
        let h = r.y2 - r.y1;
        assert!(ROOM_MIN_SIZE <= w && w <= ROOM_MAX_SIZE);
        assert!(ROOM_MIN_SIZE <= h && h <= ROOM_MAX_SIZE);
        assert!(r.x1 >= 0 && r.x2 <= MAP_WIDTH - 1);
        assert!(r.y1 >= 0 && r.y2 <= MAP_HEIGHT - 1);
    }
}

#[test]
fn generated_map_keeps_outer_wall() {
    let mut player = Object::new(0, 0, '@', Color::rgb(255, 255, 255), "player", true);
    player.alive = true;
    player.fighter = Some(Fighter {
        max_hp: 30,
        hp: 30,
        defense: 2,
        power: 5,
        on_death: DeathCallBack::Player,
    });
    let mut objects = vec![player];
    let map = make_map(&mut objects);
    assert_eq!(map.len(), MAP_WIDTH as usize);
    for x in 0..MAP_WIDTH as usize {
        assert_eq!(map[x].len(), MAP_HEIGHT as usize);
        assert!(map[x][0].blocked);
        assert!(map[x][MAP_HEIGHT as usize - 1].blocked);
    }
    for y in 0..MAP_HEIGHT as usize {
        assert!(map[0][y].blocked);
        assert!(map[MAP_WIDTH as usize - 1][y].blocked);
    }
}

#[test]
fn generated_world_places_player_and_stairs_on_floor() {
    let mut player = Object::new(0, 0, '@', Color::rgb(255, 255, 255), "player", true);
    player.alive = true;
    player.fighter = Some(Fighter {
        max_hp: 30,
        hp: 30,
        defense: 2,
        power: 5,
        on_death: DeathCallBack::Player,
    });
    let mut objects = vec![player];
    let map = make_map(&mut objects);
    let p = &objects[0];
    assert!(p.x >= 1 && p.x <= MAP_WIDTH - 2);
    assert!(p.y >= 1 && p.y <= MAP_HEIGHT - 2);
    assert!(!map[p.x as usize][p.y as usize].blocked);
    let stairs = objects.last().unwrap();
    assert_eq!(stairs.name.as_str(), "stairs");
    assert_eq!(stairs.glyph, '<');
    assert!(stairs.always_visible);
    assert!(!stairs.blocks);
    assert!(!map[stairs.x as usize][stairs.y as usize].blocked);
    // everything between the original list and the stairs is a monster or
    // an item placed strictly inside the walls, on an unblocked tile
    for o in &objects[1..objects.len() - 1] {
        assert!(o.x >= 1 && o.x <= MAP_WIDTH - 2);
        assert!(o.y >= 1 && o.y <= MAP_HEIGHT - 2);
        assert!(!map[o.x as usize][o.y as usize].blocked);
        let is_monster = o.fighter.is_some() && o.alive && o.blocks && o.item.is_none();
        let is_item = o.item.is_some() && o.fighter.is_none() && !o.blocks && !o.alive;
        assert!(is_monster || is_item);
        if is_monster {
            let f = o.fighter.unwrap();
            assert_eq!(f.hp, f.max_hp);
            assert_eq!(f.on_death, DeathCallBack::Monster);
            assert!(o.name.as_str() == "Orc" || o.name.as_str() == "Troll");
        }
    }
}

#[test]
fn new_game_starts_with_welcome_and_level_one() {
    let (game, objects) = new_game();
    assert_eq!(game.dungeon_level, 1);
    assert_eq!(game.inventory.len(), 0);
    assert_eq!(game.messages.len(), 1);
    assert_eq!(
        game.messages.get(0).0.as_str(),
        "Welcome stranger! Prepare to perish in the Maze of the Blue Medusa"
    );
    let p = &objects[0];
    assert_eq!(p.name.as_str(), "player");
    assert_eq!(p.glyph, '@');
    assert!(p.alive);
    let f = p.fighter.unwrap();
    assert_eq!((f.max_hp, f.hp, f.defense, f.power), (30, 30, 2, 5));
    assert!(!game.map[p.x as usize][p.y as usize].blocked);
}
