use life_backend::{BoardRange, Position};

#[test]
fn boardrange_default() {
    let target = BoardRange::<i32>::default();
    let expected = BoardRange::<i32>::new();
    assert_eq!(target, expected);
}

#[test]
fn display_empty() {
    let target = BoardRange::<i32>::new();
    assert_eq!(target.to_string(), "(empty)".to_string());
}

#[test]
fn display_notempty() {
    let positions = [Position(0, 0), Position(1, 0), Position(2, 0), Position(1, 1)];
    let target: BoardRange<i32> = BoardRange::from_iter(&positions);
    assert_eq!(target.to_string(), "(x:[0, 2], y:[0, 1])".to_string());
}

#[test]
fn boardrange_is_smallest_box() {
    let positions = [Position(-3, 5), Position(4, -2), Position(0, 0)];
    let target: BoardRange<i16> = BoardRange::from_iter(&positions);
    assert_eq!(target.x(), &(-3..=4));
    assert_eq!(target.y(), &(-2..=5));
    assert!(!target.is_empty());
    let (x, y) = target.into_inner();
    assert_eq!((x, y), (-3..=4, -2..=5));
}

#[test]
fn boardrange_extend_grows_box() {
    let mut target: BoardRange<i64> = BoardRange::new();
    assert!(target.is_empty());
    target.extend(&[Position(1, 1)]);
    assert_eq!(target.x(), &(1..=1));
    assert_eq!(target.y(), &(1..=1));
    target.extend(&[Position(-1, 3), Position(2, 0)]);
    assert_eq!(target.x(), &(-1..=2));
    assert_eq!(target.y(), &(0..=3));
    assert_eq!(target.to_string(), "(x:[-1, 2], y:[0, 3])");
}
