use physics2d::math::{div_toward_zero, isqrt, offset_coord, Bounds, Vec2, UNIT};

fn bounds(min_x: i32, min_y: i32, max_x: i32, max_y: i32) -> Bounds {
    Bounds::new(Vec2::new(min_x, min_y), Vec2::new(max_x, max_y))
}

#[test]
fn unit_is_a_thousandth() {
    assert_eq!(UNIT, 1000);
    assert_eq!(Vec2::zero(), Vec2::new(0, 0));
}

#[test]
fn union_takes_the_outer_corners() {
    let a = bounds(0, 5, 10, 20);
    let b = bounds(-3, 7, 8, 25);
    assert_eq!(a.union(&b), bounds(-3, 5, 10, 25));
    assert_eq!(b.union(&a), a.union(&b));
    assert_eq!(a.union(&a), a);
}

#[test]
fn union_contains_both_parts() {
    let a = bounds(0, 5, 10, 20);
    let b = bounds(40, -7, 48, 2);
    let u = a.union(&b);
    assert!(u.contains(&a));
    assert!(u.contains(&b));
    assert!(!a.contains(&u));
}

#[test]
fn intersects_counts_touching_edges() {
    let a = bounds(0, 0, 10, 10);
    assert!(a.intersects(&bounds(10, 10, 20, 20)));
    assert!(a.intersects(&bounds(5, 5, 6, 6)));
    assert!(bounds(5, 5, 6, 6).intersects(&a));
    assert!(!a.intersects(&bounds(11, 0, 20, 10)));
    assert!(!a.intersects(&bounds(0, 11, 10, 20)));
    assert!(!a.intersects(&bounds(-5, -5, -1, 20)));
}

#[test]
fn contains_needs_all_four_sides() {
    let a = bounds(0, 0, 10, 10);
    assert!(a.contains(&a));
    assert!(a.contains(&bounds(1, 1, 9, 9)));
    assert!(!a.contains(&bounds(-1, 1, 9, 9)));
    assert!(!a.contains(&bounds(1, -1, 9, 9)));
    assert!(!a.contains(&bounds(1, 1, 11, 9)));
    assert!(!a.contains(&bounds(1, 1, 9, 11)));
}

#[test]
fn perimeter_is_twice_width_plus_height() {
    assert_eq!(bounds(0, 0, 10, 20).perimeter(), 60);
    assert_eq!(bounds(-5, -5, -5, -5).perimeter(), 0);
    assert_eq!(
        bounds(i32::MIN, i32::MIN, i32::MAX, i32::MAX).perimeter(),
        4 * (u32::MAX as i64)
    );
}

#[test]
fn expand_grows_every_side() {
    assert_eq!(bounds(0, 0, 10, 10).expand(50), bounds(-50, -50, 60, 60));
    assert_eq!(bounds(0, 0, 10, 10).expand(0), bounds(0, 0, 10, 10));
    assert_eq!(bounds(0, 0, 10, 10).expand(-2), bounds(2, 2, 8, 8));
}

#[test]
fn expand_stops_at_the_coordinate_range() {
    let b = bounds(i32::MIN + 10, 0, i32::MAX - 10, 5).expand(50);
    assert_eq!(b, bounds(i32::MIN, -50, i32::MAX, 55));
}

#[test]
fn offset_coord_clamps() {
    assert_eq!(offset_coord(5, 7), 12);
    assert_eq!(offset_coord(i32::MAX, 1), i32::MAX);
    assert_eq!(offset_coord(i32::MIN, -1), i32::MIN);
    assert_eq!(offset_coord(0, 0x1_0000_0000), i32::MAX);
    assert_eq!(offset_coord(0, -0x1_0000_0000), i32::MIN);
}

#[test]
fn division_rounds_toward_zero() {
    assert_eq!(div_toward_zero(7, 2), 3);
    assert_eq!(div_toward_zero(-7, 2), -3);
    assert_eq!(div_toward_zero(6, 3), 2);
    assert_eq!(div_toward_zero(-6, 3), -2);
    assert_eq!(div_toward_zero(0, 5), 0);
    assert_eq!(div_toward_zero(-1, 5), 0);
}

#[test]
fn isqrt_rounds_down() {
    assert_eq!(isqrt(0), 0);
    assert_eq!(isqrt(1), 1);
    assert_eq!(isqrt(2), 1);
    assert_eq!(isqrt(3), 1);
    assert_eq!(isqrt(4), 2);
    assert_eq!(isqrt(15), 3);
    assert_eq!(isqrt(16), 4);
    assert_eq!(isqrt(2_250_000), 1500);
    assert_eq!(isqrt(2_250_001), 1500);
    assert_eq!(isqrt(2_249_999), 1499);
    assert_eq!(isqrt(u128::MAX), u64::MAX);
    assert_eq!(isqrt(1u128 << 64), 1u64 << 32);
    assert_eq!(isqrt((1u128 << 64) - 1), (1u64 << 32) - 1);
}

#[test]
fn division_and_offset_take_the_whole_range() {
    assert_eq!(div_toward_zero(i64::MIN, 1), i64::MIN);
    assert_eq!(div_toward_zero(i64::MIN, 2), i64::MIN / 2);
    assert_eq!(div_toward_zero(i64::MAX, i64::MAX), 1);
    assert_eq!(div_toward_zero(i64::MIN + 1, i64::MAX), -1);
    assert_eq!(offset_coord(i32::MAX, i64::MAX), i32::MAX);
    assert_eq!(offset_coord(i32::MIN, i64::MIN), i32::MIN);
    assert_eq!(offset_coord(-7, i32::MAX as i64 + 7), i32::MAX);
}
