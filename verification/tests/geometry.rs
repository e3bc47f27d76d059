use boids::geometry::{distance_squared, Rect, Side, Vect};

fn world() -> Rect {
    Rect { min: Vect::new(0, 0), max: Vect::new(1_000_000, 600_000) }
}

#[test]
fn wrap_past_right_edge_lands_on_left_edge() {
    let p = world().wrap(Vect::new(1_000_500, 300_000));
    assert_eq!(p, Vect::new(0, 300_000));
}

#[test]
fn wrap_past_left_edge_lands_on_right_edge() {
    let p = world().wrap(Vect::new(-1, 17));
    assert_eq!(p, Vect::new(1_000_000, 17));
}

#[test]
fn wrap_past_top_and_bottom() {
    assert_eq!(world().wrap(Vect::new(5, 600_001)), Vect::new(5, 0));
    assert_eq!(world().wrap(Vect::new(5, -1)), Vect::new(5, 600_000));
}

#[test]
fn wrap_leaves_inside_and_border_alone() {
    assert_eq!(world().wrap(Vect::new(0, 0)), Vect::new(0, 0));
    assert_eq!(world().wrap(Vect::new(1_000_000, 600_000)), Vect::new(1_000_000, 600_000));
    assert_eq!(world().wrap(Vect::new(123, 456)), Vect::new(123, 456));
}

#[test]
fn wrap_beyond_a_corner_moves_x_only() {
    assert_eq!(world().wrap(Vect::new(-1, 700_000)), Vect::new(1_000_000, 700_000));
}

#[test]
fn respective_names_each_side() {
    let b = world();
    assert_eq!(b.respective(Vect::new(-1, 0)), Side::Left);
    assert_eq!(b.respective(Vect::new(1_000_001, 0)), Side::Right);
    assert_eq!(b.respective(Vect::new(0, -1)), Side::Bottom);
    assert_eq!(b.respective(Vect::new(0, 600_001)), Side::Top);
    assert_eq!(b.respective(Vect::new(0, 600_000)), Side::In);
}

#[test]
fn distance_squared_is_exact() {
    assert_eq!(distance_squared(Vect::new(0, 0), Vect::new(3, 4)), 25);
    assert_eq!(distance_squared(Vect::new(-2, 7), Vect::new(-2, 7)), 0);
    assert_eq!(
        distance_squared(Vect::new(-1_073_741_824, 0), Vect::new(1_073_741_824, 0)),
        4_611_686_018_427_387_904
    );
}

#[test]
fn cube_is_centred() {
    let r = Rect::cube(Vect::new(10, -10), 3);
    assert_eq!(r, Rect { min: Vect::new(7, -13), max: Vect::new(13, -7) });
    assert_eq!(Rect::cube(Vect::zero(), 0), Rect { min: Vect::zero(), max: Vect::zero() });
}
