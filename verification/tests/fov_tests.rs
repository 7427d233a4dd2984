use rogue_core::fov::{compute_fov, update_explored, TORCH_RADIUS};
use rogue_core::game::{Tile, MAP_HEIGHT, MAP_WIDTH};

fn open_map() -> Vec<Vec<Tile>> {
    let mut map = Vec::new();
    for x in 0..MAP_WIDTH {
        let mut col = Vec::new();
        for y in 0..MAP_HEIGHT {
            if x == 0 || x == MAP_WIDTH - 1 || y == 0 || y == MAP_HEIGHT - 1 {
                col.push(Tile::wall());
            } else {
                col.push(Tile::empty());
            }
        }
        map.push(col);
    }
    map
}

#[test]
fn observer_sees_itself_and_close_floor() {
    let map = open_map();
    let fov = compute_fov(&map, 20, 20, TORCH_RADIUS);
    assert!(fov.is_in_fov(20, 20));
    assert!(fov.is_in_fov(25, 20));
    assert!(fov.is_in_fov(20, 15));
    assert!(fov.is_in_fov(23, 23));
}

#[test]
fn sight_is_bounded_by_the_radius() {
    let map = open_map();
    let fov = compute_fov(&map, 20, 20, TORCH_RADIUS);
    assert!(fov.is_in_fov(30, 20));
    assert!(!fov.is_in_fov(31, 20));
    // 8^2 + 8^2 = 128 > 100
    assert!(!fov.is_in_fov(28, 28));
}

#[test]
fn walls_occlude_but_are_themselves_lit() {
    let mut map = open_map();
    // a vertical wall segment two tiles to the right of the observer
    for y in 10..31 {
        map[22][y] = Tile::wall();
    }
    let fov = compute_fov(&map, 20, 20, TORCH_RADIUS);
    // the wall itself is lit
    assert!(fov.is_in_fov(22, 20));
    // the floor right behind it is not
    assert!(!fov.is_in_fov(23, 20));
    assert!(!fov.is_in_fov(25, 20));
    // the open side is unaffected
    assert!(fov.is_in_fov(18, 20));
}

#[test]
fn exploration_is_sticky_when_the_observer_moves_away() {
    let mut map = open_map();
    let fov_a = compute_fov(&map, 10, 10, TORCH_RADIUS);
    assert!(fov_a.is_in_fov(12, 10));
    update_explored(&mut map, &fov_a);
    assert!(map[12][10].explored);
    // move far away: the tile is no longer visible, but stays explored
    let fov_b = compute_fov(&map, 60, 30, TORCH_RADIUS);
    assert!(!fov_b.is_in_fov(12, 10));
    update_explored(&mut map, &fov_b);
    assert!(map[12][10].explored);
    assert!(map[60][30].explored);
}

#[test]
fn recomputation_from_the_same_spot_is_identical() {
    let map = open_map();
    let a = compute_fov(&map, 33, 21, TORCH_RADIUS);
    let b = compute_fov(&map, 33, 21, TORCH_RADIUS);
    for x in 0..MAP_WIDTH {
        for y in 0..MAP_HEIGHT {
            assert_eq!(a.is_in_fov(x, y), b.is_in_fov(x, y));
        }
    }
}
