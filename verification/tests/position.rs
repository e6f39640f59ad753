use std::collections::HashSet;

use life_backend::Position;

#[test]
fn position_display() {
    let target = Position(1, 2);
    assert_eq!(target.to_string(), "(1, 2)".to_string());
}

#[test]
fn try_from_infallible() {
    let base: Position<i8> = Position(0, 0);
    let target = Position::<i16>::try_from(base);
    assert!(target.is_ok());
}

#[test]
fn try_from_fallible_no_error() {
    let base: Position<i16> = Position(0, 0);
    let target = Position::<i8>::try_from(base);
    assert!(target.is_ok());
}

#[test]
fn try_from_fallible_with_error() {
    let base: Position<i8> = Position(-1, 0);
    let target = Position::<u8>::try_from(base);
    assert!(target.is_err());
}

#[test]
fn try_into_infallible() {
    let base: Position<i8> = Position(0, 0);
    let target = base.try_into::<i16>();
    assert!(target.is_ok());
}

#[test]
fn try_into_fallible_no_error() {
    let base: Position<i16> = Position(0, 0);
    let target = base.try_into::<i8>();
    assert!(target.is_ok());
}

#[test]
fn try_into_fallible_with_error() {
    let base: Position<i8> = Position(-1, 0);
    let target = base.try_into::<u8>();
    assert!(target.is_err());
}

#[test]
fn moore_neighborhood_positions_basic() {
    let target: Position<i32> = Position(0, 0);
    assert_eq!(
        target.moore_neighborhood_positions().into_iter().collect::<HashSet<_>>(),
        [(-1, -1), (0, -1), (1, -1), (-1, 0), (1, 0), (-1, 1), (0, 1), (1, 1)]
            .into_iter()
            .map(|(x, y)| Position(x, y))
            .collect::<HashSet<_>>()
    );
}

#[test]
fn moore_neighborhood_positions_bounds() {
    let min = i32::MIN;
    let max = i32::MAX;
    let zero: i32 = 0;
    for (pos_tuple, expected_count) in [
        ((min, min), 3),
        ((min, zero), 5),
        ((min, max), 3),
        ((zero, min), 5),
        ((zero, zero), 8),
        ((zero, max), 5),
        ((max, min), 3),
        ((max, zero), 5),
        ((max, max), 3),
    ] {
        let pos = Position(pos_tuple.0, pos_tuple.1);
        assert_eq!(pos.moore_neighborhood_positions().len(), expected_count);
    }
}

#[test]
fn position_display_negative() {
    let target: Position<i16> = Position(-3, 40);
    assert_eq!(target.to_string(), "(-3, 40)");
    let target: Position<i64> = Position(i64::MIN, i64::MAX);
    assert_eq!(target.to_string(), "(-9223372036854775808, 9223372036854775807)");
}

#[test]
fn moore_neighbourhood_is_symmetric() {
    let p: Position<i16> = Position(5, -7);
    for q in p.moore_neighborhood_positions() {
        assert!(q.moore_neighborhood_positions().contains(&p));
        assert_ne!(q, p);
    }
}

#[test]
fn moore_neighbourhood_at_i16_corner() {
    let p: Position<i16> = Position(i16::MAX, i16::MIN);
    let got: HashSet<_> = p.moore_neighborhood_positions().into_iter().collect();
    let expected: HashSet<_> = [(i16::MAX - 1, i16::MIN), (i16::MAX - 1, i16::MIN + 1), (i16::MAX, i16::MIN + 1)]
        .into_iter()
        .map(|(x, y)| Position(x, y))
        .collect();
    assert_eq!(got, expected);
}

#[test]
fn position_display_wide_coordinates() {
    let target: Position<i128> = Position(i128::MIN, i128::MAX);
    assert_eq!(
        target.to_string(),
        "(-170141183460469231731687303715884105728, 170141183460469231731687303715884105727)".to_string()
    );
    let target: Position<u128> = Position(0, u128::MAX);
    assert_eq!(target.to_string(), "(0, 340282366920938463463374607431768211455)".to_string());
}

#[test]
fn moore_neighbourhood_at_u128_corner() {
    let target: Position<u128> = Position(0, u128::MAX);
    let found = target.moore_neighborhood_positions().into_iter().collect::<HashSet<_>>();
    let expected = [Position(1, u128::MAX), Position(0, u128::MAX - 1), Position(1, u128::MAX - 1)]
        .into_iter()
        .collect::<HashSet<_>>();
    assert_eq!(found, expected);
}
