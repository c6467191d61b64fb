use tetris_graphics::vec2::Vec2;

#[test]
fn vec2_new_holds_both_components() {
    let v = Vec2::new(3u32, 4u32);
    assert_eq!((v.x, v.y), (3, 4));
    let f = Vec2::new(0.5f32, -1.5f32);
    assert_eq!((f.x, f.y), (0.5, -1.5));
}

#[test]
fn vec2_set_overwrites_both_components() {
    let mut v = Vec2::new(1i32, 2i32);
    v.set(-7, 9);
    assert_eq!(v, Vec2 { x: -7, y: 9 });
}

#[test]
fn vec2_default_is_zero() {
    assert_eq!(Vec2::<u16>::default(), Vec2::new(0, 0));
}
