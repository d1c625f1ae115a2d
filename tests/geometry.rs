use advent_circuits::error::PuzzleError;
use advent_circuits::geometry::{Vec2, Vec3};

#[test]
fn vec3_parses_three_fields() {
    assert_eq!(Vec3::from_str("1,-2,+3"), Ok(Vec3::new(1, -2, 3)));
    assert_eq!(Vec3::from_str("1,2,3,4"), Err(PuzzleError::Malformed));
    assert_eq!(Vec3::from_str("1,2,3,"), Err(PuzzleError::Malformed));
    assert_eq!(Vec3::from_str("1,2"), Err(PuzzleError::Malformed));
    assert_eq!(Vec3::from_str("1,2,"), Err(PuzzleError::Malformed));
    assert_eq!(Vec3::from_str(" 1,2,3"), Err(PuzzleError::Malformed));
    assert_eq!(Vec3::from_str("9223372036854775808,0,0"), Err(PuzzleError::Malformed));
    assert_eq!(
        Vec3::from_str("-9223372036854775808,0,0"),
        Ok(Vec3::new(i64::MIN, 0, 0))
    );
}

#[test]
fn vec3_squared_distance() {
    let a = Vec3::new(1, 2, 3);
    let b = Vec3::new(4, 6, 3);
    assert_eq!(a.distance_squared(&b), 25);
    assert_eq!(b.distance_squared(&a), 25);
    assert_eq!(a.checked_distance_squared(&b), Some(25));
    assert_eq!(Vec3::new(i64::MIN, 0, 0).checked_distance_squared(&Vec3::new(0, 0, 0)), None);
}

#[test]
fn vec2_parses_and_measures() {
    assert_eq!(Vec2::from_str("7,1"), Ok(Vec2::new(7, 1)));
    assert_eq!(Vec2::from_str("7"), Err(PuzzleError::Malformed));
    assert_eq!(Vec2::new(7, 1).distance_squared(&Vec2::new(11, 4)), 25);
}
