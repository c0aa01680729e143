use snake_neat::vec2::Vec2i;

#[test]
fn from_takes_the_pair_in_order() {
    let v = Vec2i::from((3, -7));
    assert_eq!(v.x, 3);
    assert_eq!(v.y, -7);
}

#[test]
fn magnitude_is_the_floor_of_the_length() {
    assert_eq!(Vec2i::from((3, 4)).magnitude(), 5);
    assert_eq!(Vec2i::from((1, 1)).magnitude(), 1);
    assert_eq!(Vec2i::from((-2, 3)).magnitude(), 3);
    assert_eq!(Vec2i::from((0, 0)).magnitude(), 0);
    assert_eq!(Vec2i::from((0, -9)).magnitude(), 9);
}

#[test]
fn normalised_gives_unit_axes() {
    assert_eq!(Vec2i::from((0, -6)).normalised(), Vec2i::from((0, -1)));
    assert_eq!(Vec2i::from((5, 0)).normalised(), Vec2i::from((1, 0)));
    assert_eq!(Vec2i::from((3, 4)).normalised(), Vec2i::from((0, 0)));
    assert_eq!(Vec2i::from((1, 1)).normalised(), Vec2i::from((1, 1)));
    assert_eq!(Vec2i::from((-1, 1)).normalised(), Vec2i::from((-1, 1)));
}

#[test]
fn add_components_sums_x_and_y() {
    assert_eq!(Vec2i::from((4, -9)).add_components(), -5);
}

#[test]
fn arithmetic_works_componentwise() {
    let a = Vec2i::from((2, -3));
    let b = Vec2i::from((5, 4));
    assert_eq!(a.add(b), Vec2i::from((7, 1)));
    assert_eq!(a.sub(b), Vec2i::from((-3, -7)));
    assert_eq!(a.mul(b), Vec2i::from((10, -12)));
    let mut c = a;
    c.add_assign(b);
    assert_eq!(c, Vec2i::from((7, 1)));
    c.mul_assign(Vec2i::from((2, 3)));
    assert_eq!(c, Vec2i::from((14, 3)));
}
