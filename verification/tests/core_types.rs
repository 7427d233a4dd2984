use rogue_core::color::Color;
use rogue_core::game::{Messages, Rect, Tile};
use rogue_core::text::u32_to_string;

#[test]
fn rect_new_sets_corners() {
    let r = Rect::new(3, 4, 6, 7);
    assert_eq!(r.x1, 3);
    assert_eq!(r.y1, 4);
    assert_eq!(r.x2, 9);
    assert_eq!(r.y2, 11);
}

#[test]
fn rect_center_rounds_down() {
    let r = Rect::new(2, 2, 7, 7);
    let (cx, cy) = r.center();
    assert_eq!(cx, 5);
    assert_eq!(cy, 5);
}

#[test]
fn rect_overlap_is_inclusive() {
    let a = Rect::new(0, 0, 4, 4);
    let b = Rect::new(4, 4, 4, 4);
    // touching edges count as overlap
    assert!(a.intersects_with(&b));
    let c = Rect::new(5, 5, 4, 4);
    assert!(!a.intersects_with(&c));
    let d = Rect::new(0, 5, 4, 4);
    assert!(!a.intersects_with(&d));
}

#[test]
fn tiles_have_expected_flags() {
    let e = Tile::empty();
    assert!(!e.blocked && !e.block_sight && !e.explored);
    let w = Tile::wall();
    assert!(w.blocked && w.block_sight && !w.explored);
}

#[test]
fn messages_append_in_order() {
    let mut m = Messages::new();
    assert_eq!(m.len(), 0);
    m.add(String::from("first"), Color::rgb(1, 2, 3));
    m.add(String::from("second"), Color::rgb(4, 5, 6));
    assert_eq!(m.len(), 2);
    assert_eq!(m.get(0).0.as_str(), "first");
    assert_eq!(m.get(0).1, Color::rgb(1, 2, 3));
    assert_eq!(m.get(1).0.as_str(), "second");
    assert_eq!(m.iter().len(), 2);
    assert_eq!(m.iter()[1].0.as_str(), "second");
}

#[test]
fn decimal_rendering_is_exact() {
    assert_eq!(u32_to_string(0).as_str(), "0");
    assert_eq!(u32_to_string(7).as_str(), "7");
    assert_eq!(u32_to_string(40).as_str(), "40");
    assert_eq!(u32_to_string(1234567890).as_str(), "1234567890");
    assert_eq!(u32_to_string(u32::MAX).as_str(), "4294967295");
}
