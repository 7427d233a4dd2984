use rogue_core::actions::{
    ai_take_turn, ai_turn, closest_monster, handle_intent, names_at, new_game, pick_item_up,
    player_move_or_attack, use_item, validate_world, PlayerAction, PlayerIntent, CONFUSE_NUM_TURNS,
};
use rogue_core::color::Color;
use rogue_core::fov::{compute_fov, TORCH_RADIUS};
use rogue_core::game::{Game, Messages, Tile, MAP_HEIGHT, MAP_WIDTH};
use rogue_core::object::{Ai, DeathCallBack, Fighter, Item, Object};

fn open_map() -> Vec<Vec<Tile>> {
    let mut map = Vec::new();
    for x in 0..MAP_WIDTH {
        let mut col = Vec::new();
        for y in 0..MAP_HEIGHT {
            if x == 0 || x == MAP_WIDTH - 1 || y == 0 || y == MAP_HEIGHT - 1 {
                col.push(Tile::wall());
            } else {
                col.push(Tile::empty());
            }
        }
        map.push(col);
    }
    map
}

fn blank_game() -> Game {
    Game { map: open_map(), messages: Messages::new(), inventory: Vec::new(), dungeon_level: 1 }
}

fn player_at(x: i32, y: i32) -> Object {
    let mut p = Object::new(x, y, '@', Color::rgb(255, 255, 255), "player", true);
    p.alive = true;
    p.fighter = Some(Fighter {
        max_hp: 30,
        hp: 30,
        defense: 2,
        power: 5,
        on_death: DeathCallBack::Player,
    });
    p
}

fn orc_at(x: i32, y: i32) -> Object {
    let mut o = Object::new(x, y, 'o', Color::rgb(127, 63, 63), "Orc", true);
    o.alive = true;
    o.fighter = Some(Fighter {
        max_hp: 10,
        hp: 10,
        defense: 0,
        power: 3,
        on_death: DeathCallBack::Monster,
    });
    o.ai = Some(Ai::Basic);
    o
}

fn potion_at(x: i32, y: i32) -> Object {
    let mut i = Object::new(x, y, 'b', Color::rgb(127, 0, 255), "healing potion", false);
    i.item = Some(Item::Heal);
    i
}

#[test]
fn moving_into_open_floor_moves_the_player() {
    let mut game = blank_game();
    let mut objects = vec![player_at(10, 10)];
    player_move_or_attack(1, 0, &mut game, &mut objects);
    assert_eq!((objects[0].x, objects[0].y), (11, 10));
}

#[test]
fn moving_into_a_wall_is_a_no_op() {
    let mut game = blank_game();
    let mut objects = vec![player_at(1, 10)];
    player_move_or_attack(-1, 0, &mut game, &mut objects);
    assert_eq!((objects[0].x, objects[0].y), (1, 10));
}

#[test]
fn moving_into_a_monster_resolves_as_attack() {
    let mut game = blank_game();
    let mut objects = vec![player_at(10, 10), orc_at(11, 10)];
    player_move_or_attack(1, 0, &mut game, &mut objects);
    // the player stays put; the monster takes 5 damage
    assert_eq!((objects[0].x, objects[0].y), (10, 10));
    assert_eq!(objects[1].fighter.unwrap().hp, 5);
    assert_eq!(game.messages.len(), 1);
}

#[test]
fn pickup_moves_the_item_into_the_inventory() {
    let mut game = blank_game();
    let mut objects = vec![player_at(10, 10), potion_at(10, 10)];
    let fov = compute_fov(&game.map, 10, 10, TORCH_RADIUS);
    let action = handle_intent(PlayerIntent::PickUp, &mut game, &mut objects, &fov);
    assert_eq!(action, PlayerAction::DidntTakeTurn);
    assert_eq!(objects.len(), 1);
    assert_eq!(game.inventory.len(), 1);
    assert_eq!(game.inventory[0].name.as_str(), "healing potion");
    assert_eq!(game.messages.get(0).0.as_str(), "You picked healing potion");
}

#[test]
fn pickup_with_full_inventory_rejects_and_keeps_the_item() {
    let mut game = blank_game();
    for _ in 0..26 {
        game.inventory.push(potion_at(0, 0));
    }
    let mut objects = vec![player_at(10, 10), potion_at(10, 10)];
    pick_item_up(1, &mut game, &mut objects);
    assert_eq!(game.inventory.len(), 26);
    assert_eq!(objects.len(), 2);
    assert_eq!(objects[1].name.as_str(), "healing potion");
    assert_eq!(game.messages.len(), 1);
    assert_eq!(game.messages.get(0).0.as_str(), "Your inventory is full");
}

#[test]
fn heal_potion_heals_and_is_consumed() {
    let mut game = blank_game();
    let mut objects = vec![player_at(10, 10)];
    objects[0].fighter = Some(Fighter {
        max_hp: 30,
        hp: 28,
        defense: 2,
        power: 5,
        on_death: DeathCallBack::Player,
    });
    game.inventory.push(potion_at(0, 0));
    let fov = compute_fov(&game.map, 10, 10, TORCH_RADIUS);
    use_item(0, &mut game, &mut objects, &fov);
    // healed by 4 but clamped at max hp
    assert_eq!(objects[0].fighter.unwrap().hp, 30);
    assert_eq!(game.inventory.len(), 0);
}

#[test]
fn heal_potion_cancels_at_full_health() {
    let mut game = blank_game();
    let mut objects = vec![player_at(10, 10)];
    game.inventory.push(potion_at(0, 0));
    let fov = compute_fov(&game.map, 10, 10, TORCH_RADIUS);
    use_item(0, &mut game, &mut objects, &fov);
    assert_eq!(objects[0].fighter.unwrap().hp, 30);
    assert_eq!(game.inventory.len(), 1);
    assert_eq!(game.messages.get(0).0.as_str(), "You are already at full health");
    assert_eq!(game.messages.get(1).0.as_str(), "Cancelled");
}

#[test]
fn lightning_strikes_the_closest_visible_monster() {
    let mut game = blank_game();
    let mut near = orc_at(12, 10);
    near.fighter = Some(Fighter {
        max_hp: 50,
        hp: 45,
        defense: 0,
        power: 3,
        on_death: DeathCallBack::Monster,
    });
    let far = orc_at(14, 10);
    let mut objects = vec![player_at(10, 10), near, far];
    let mut scroll = Object::new(0, 0, '#', Color::rgb(255, 255, 63), "Scroll of lightning bolt", false);
    scroll.item = Some(Item::Lightning);
    game.inventory.push(scroll);
    let fov = compute_fov(&game.map, 10, 10, TORCH_RADIUS);
    assert_eq!(closest_monster(&fov, &objects, 6), Some(1));
    use_item(0, &mut game, &mut objects, &fov);
    assert_eq!(objects[1].fighter.unwrap().hp, 5);
    assert_eq!(objects[2].fighter.unwrap().hp, 10);
    assert_eq!(game.inventory.len(), 0);
}

#[test]
fn lightning_cancels_without_a_target() {
    let mut game = blank_game();
    let mut objects = vec![player_at(10, 10)];
    let mut scroll = Object::new(0, 0, '#', Color::rgb(255, 255, 63), "Scroll of lightning bolt", false);
    scroll.item = Some(Item::Lightning);
    game.inventory.push(scroll);
    let fov = compute_fov(&game.map, 10, 10, TORCH_RADIUS);
    use_item(0, &mut game, &mut objects, &fov);
    assert_eq!(game.inventory.len(), 1);
    assert_eq!(game.messages.get(0).0.as_str(), "No enemy close enough");
    assert_eq!(game.messages.get(1).0.as_str(), "Cancelled");
}

#[test]
fn confusion_scroll_wraps_the_prior_behavior() {
    let mut game = blank_game();
    let mut objects = vec![player_at(10, 10), orc_at(12, 10)];
    let mut scroll = Object::new(0, 0, '#', Color::rgb(63, 63, 255), "Scroll of confusion", false);
    scroll.item = Some(Item::Confuse);
    game.inventory.push(scroll);
    let fov = compute_fov(&game.map, 10, 10, TORCH_RADIUS);
    use_item(0, &mut game, &mut objects, &fov);
    match &objects[1].ai {
        Some(Ai::Confused { previous, num_turns }) => {
            assert_eq!(*num_turns, CONFUSE_NUM_TURNS);
            assert!(matches!(**previous, Ai::Basic));
        },
        other => panic!("expected a confusion wrapper, got {:?}", other),
    }
    assert_eq!(game.inventory.len(), 0);
}

#[test]
fn confusion_takes_ten_turns_then_reverts_with_one_message() {
    let mut game = blank_game();
    let mut orc = orc_at(30, 20);
    orc.ai = Some(Ai::Confused { previous: Box::new(Ai::Basic), num_turns: 10 });
    let mut objects = vec![player_at(70, 40), orc];
    let fov = compute_fov(&game.map, 70, 40, TORCH_RADIUS);
    for turn in 0..10 {
        ai_take_turn(1, &fov, &mut game, &mut objects);
        match &objects[1].ai {
            Some(Ai::Confused { num_turns, .. }) => assert_eq!(*num_turns, 9 - turn),
            other => panic!("expected confusion to continue, got {:?}", other),
        }
        assert_eq!(game.messages.len(), 0);
    }
    // the eleventh activation reverts and logs exactly once
    ai_take_turn(1, &fov, &mut game, &mut objects);
    assert!(matches!(objects[1].ai, Some(Ai::Basic)));
    assert_eq!(game.messages.len(), 1);
    assert_eq!(game.messages.get(0).0.as_str(), "The Orc is no longer confused");
}

#[test]
fn adjacent_monster_attacks_a_living_player() {
    let mut game = blank_game();
    let mut objects = vec![player_at(10, 10), orc_at(11, 10)];
    let fov = compute_fov(&game.map, 10, 10, TORCH_RADIUS);
    ai_turn(PlayerAction::TookTurn, &fov, &mut game, &mut objects);
    // orc power 3 against player defense 2: one point of damage
    assert_eq!(objects[0].fighter.unwrap().hp, 29);
    assert_eq!(game.messages.get(0).0.as_str(), "Orc attacks player for 1 hit points.");
}

#[test]
fn visible_monster_chases_the_player() {
    let mut game = blank_game();
    let mut objects = vec![player_at(10, 10), orc_at(15, 10)];
    let fov = compute_fov(&game.map, 10, 10, TORCH_RADIUS);
    ai_turn(PlayerAction::TookTurn, &fov, &mut game, &mut objects);
    assert_eq!((objects[1].x, objects[1].y), (14, 10));
}

#[test]
fn ai_phase_is_skipped_without_a_turn_taken() {
    let mut game = blank_game();
    let mut objects = vec![player_at(10, 10), orc_at(15, 10)];
    let fov = compute_fov(&game.map, 10, 10, TORCH_RADIUS);
    ai_turn(PlayerAction::DidntTakeTurn, &fov, &mut game, &mut objects);
    assert_eq!((objects[1].x, objects[1].y), (15, 10));
    assert_eq!(game.messages.len(), 0);
}

#[test]
fn dropping_returns_the_item_to_the_player_tile() {
    let mut game = blank_game();
    let mut objects = vec![player_at(22, 13)];
    game.inventory.push(potion_at(0, 0));
    let fov = compute_fov(&game.map, 22, 13, TORCH_RADIUS);
    let action = handle_intent(PlayerIntent::DropItem(0), &mut game, &mut objects, &fov);
    assert_eq!(action, PlayerAction::DidntTakeTurn);
    assert_eq!(game.inventory.len(), 0);
    assert_eq!(objects.len(), 2);
    assert_eq!((objects[1].x, objects[1].y), (22, 13));
    assert_eq!(game.messages.get(0).0.as_str(), "You dropped a healing potion");
}

#[test]
fn descending_requires_standing_on_stairs() {
    let mut game = blank_game();
    let mut objects = vec![player_at(10, 10)];
    let fov = compute_fov(&game.map, 10, 10, TORCH_RADIUS);
    let action = handle_intent(PlayerIntent::Descend, &mut game, &mut objects, &fov);
    assert_eq!(action, PlayerAction::DidntTakeTurn);
    assert_eq!(game.dungeon_level, 1);
    // now place the stairs under the player
    let mut stairs = Object::new(10, 10, '<', Color::rgb(255, 255, 255), "stairs", false);
    stairs.always_visible = true;
    objects.push(stairs);
    objects[0].fighter = Some(Fighter {
        max_hp: 30,
        hp: 10,
        defense: 2,
        power: 5,
        on_death: DeathCallBack::Player,
    });
    handle_intent(PlayerIntent::Descend, &mut game, &mut objects, &fov);
    assert_eq!(game.dungeon_level, 2);
    // rest-healed by half of max hp before descending
    assert_eq!(objects[0].fighter.unwrap().hp, 25);
    assert_eq!(
        game.messages.get(0).0.as_str(),
        "You take a moment to rest, and recover your strength"
    );
}

#[test]
fn exit_intent_changes_nothing() {
    let mut game = blank_game();
    let mut objects = vec![player_at(10, 10)];
    let fov = compute_fov(&game.map, 10, 10, TORCH_RADIUS);
    let action = handle_intent(PlayerIntent::Exit, &mut game, &mut objects, &fov);
    assert_eq!(action, PlayerAction::Exit);
    assert_eq!(game.messages.len(), 0);
    assert_eq!((objects[0].x, objects[0].y), (10, 10));
}

#[test]
fn dead_player_cannot_act() {
    let mut game = blank_game();
    let mut objects = vec![player_at(10, 10)];
    objects[0].alive = false;
    let fov = compute_fov(&game.map, 10, 10, TORCH_RADIUS);
    let action = handle_intent(
        PlayerIntent::Move { dx: 1, dy: 0 },
        &mut game,
        &mut objects,
        &fov,
    );
    assert_eq!(action, PlayerAction::DidntTakeTurn);
    assert_eq!((objects[0].x, objects[0].y), (10, 10));
}

#[test]
fn unusable_entity_in_inventory_only_logs() {
    let mut game = blank_game();
    let mut objects = vec![player_at(10, 10)];
    // an inventory slot holding something without item identity
    game.inventory.push(Object::new(0, 0, '?', Color::rgb(9, 9, 9), "strange rock", false));
    let fov = compute_fov(&game.map, 10, 10, TORCH_RADIUS);
    use_item(0, &mut game, &mut objects, &fov);
    assert_eq!(game.inventory.len(), 1);
    assert_eq!(game.messages.get(0).0.as_str(), "The strange rock cannot be used");
}

#[test]
fn names_under_a_position_list_visible_entities() {
    let game = blank_game();
    let mut objects = vec![player_at(10, 10), orc_at(12, 10), potion_at(12, 10)];
    let fov = compute_fov(&game.map, 10, 10, TORCH_RADIUS);
    let names = names_at(&objects, &fov, 12, 10);
    assert_eq!(names.len(), 2);
    assert_eq!(names[0].as_str(), "Orc");
    assert_eq!(names[1].as_str(), "healing potion");
    // an empty tile yields nothing
    assert!(names_at(&objects, &fov, 13, 13).is_empty());
    // out of sight yields nothing, even with an entity there
    objects.push(orc_at(70, 40));
    assert!(names_at(&objects, &fov, 70, 40).is_empty());
}

#[test]
fn level_transition_keeps_prior_entities_and_walls() {
    let mut game = blank_game();
    let mut objects = vec![player_at(10, 10), orc_at(30, 30)];
    let mut stairs = Object::new(10, 10, '<', Color::rgb(255, 255, 255), "stairs", false);
    stairs.always_visible = true;
    objects.push(stairs);
    let fov = compute_fov(&game.map, 10, 10, TORCH_RADIUS);
    handle_intent(PlayerIntent::Descend, &mut game, &mut objects, &fov);
    assert_eq!(game.dungeon_level, 2);
    // the old monster record is still in the list, untouched
    assert_eq!(objects[1].name.as_str(), "Orc");
    assert_eq!((objects[1].x, objects[1].y), (30, 30));
    // the fresh map is fully walled at its border
    for x in 0..MAP_WIDTH as usize {
        assert!(game.map[x][0].blocked);
        assert!(game.map[x][MAP_HEIGHT as usize - 1].blocked);
    }
    // the new list ends with fresh stairs
    assert_eq!(objects.last().unwrap().name.as_str(), "stairs");
}

#[test]
fn out_of_range_inventory_index_is_a_no_op() {
    let mut game = blank_game();
    let mut objects = vec![player_at(10, 10)];
    let fov = compute_fov(&game.map, 10, 10, TORCH_RADIUS);
    let action = handle_intent(PlayerIntent::UseItem(3), &mut game, &mut objects, &fov);
    assert_eq!(action, PlayerAction::DidntTakeTurn);
    assert_eq!(game.messages.len(), 0);
    let action = handle_intent(PlayerIntent::DropItem(0), &mut game, &mut objects, &fov);
    assert_eq!(action, PlayerAction::DidntTakeTurn);
    assert_eq!(objects.len(), 1);
}

#[test]
fn a_fresh_world_validates_and_a_corrupted_one_does_not() {
    let (game, objects) = new_game();
    assert!(validate_world(&game, &objects));
    // a monster claiming combat stats with zero hp violates the invariants
    let mut objects2 = vec![player_at(10, 10), orc_at(12, 10)];
    objects2[1].fighter = Some(Fighter {
        max_hp: 10,
        hp: 0,
        defense: 0,
        power: 3,
        on_death: DeathCallBack::Monster,
    });
    let game2 = blank_game();
    assert!(!validate_world(&game2, &objects2));
    // a player standing on the border violates them too
    let mut objects3 = vec![player_at(10, 10)];
    objects3[0].x = 0;
    assert!(!validate_world(&game2, &objects3));
}
