use life_backend::{Board, BoardRange, Position};

#[test]
fn board_set_then_get() {
    let mut board: Board<i16> = Board::new();
    assert!(!board.get(&Position(1, 2)));
    board.set(&Position(1, 2), true);
    assert!(board.get(&Position(1, 2)));
    assert!(!board.get(&Position(2, 1)));
    board.set(&Position(1, 2), false);
    assert!(!board.get(&Position(1, 2)));
    assert_eq!(board, Board::new());
}

#[test]
fn board_from_iter_extend_and_iter() {
    let mut board: Board<i32> = Board::from_iter(&[Position(1, 0), Position(0, 1), Position(1, 0)]);
    assert_eq!(board.iter().len(), 2);
    board.extend(&[Position(5, 5)]);
    let mut cells = board.iter();
    cells.sort_by_key(|p| (p.1, p.0));
    assert_eq!(cells, vec![Position(1, 0), Position(0, 1), Position(5, 5)]);
}

#[test]
fn board_clear_and_retain() {
    let mut board: Board<i64> = Board::from_iter(&[Position(0, 0), Position(1, 0), Position(2, 0)]);
    board.retain(|p| p.0 != 1);
    assert!(board.get(&Position(0, 0)));
    assert!(!board.get(&Position(1, 0)));
    assert!(board.get(&Position(2, 0)));
    board.clear();
    assert!(board.iter().is_empty());
}

#[test]
fn board_bounding_box() {
    let board: Board<i16> = Board::from_iter(&[Position(-2, 3), Position(4, -1)]);
    let bbox = board.bounding_box();
    assert_eq!(bbox.x(), &(-2..=4));
    assert_eq!(bbox.y(), &(-1..=3));
    let empty: Board<i16> = Board::default();
    assert!(empty.bounding_box().is_empty());
    assert_eq!(empty.bounding_box(), BoardRange::new());
}

#[test]
fn board_display() {
    let board: Board<i16> = Board::from_iter(&[Position(1, 0), Position(0, 1), Position(2, 1)]);
    assert_eq!(board.to_string(), ".O.\nO.O\n");
    let empty: Board<i16> = Board::new();
    assert_eq!(empty.to_string(), "");
}

#[test]
fn board_with_i128_coordinates() {
    let mut board: Board<i128> = Board::from_iter(&[Position(-3, 7), Position(2, -1)]);
    assert!(board.get(&Position(-3, 7)));
    board.set(&Position(-3, 7), false);
    assert!(!board.get(&Position(-3, 7)));
    let bbox = board.bounding_box();
    assert_eq!(bbox.x(), &(2..=2));
    assert_eq!(bbox.y(), &(-1..=-1));
}
