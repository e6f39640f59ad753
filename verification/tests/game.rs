use life_backend::format::Rle;
use life_backend::{Board, Game, Position, Rule};

fn load_game(pattern: &str) -> Game<i16> {
    let handler: Rle = pattern.parse().unwrap();
    let rule = *handler.rule();
    let cells: Vec<Position<i16>> = handler
        .live_cells()
        .into_iter()
        .map(|p| Position::<i16>::try_from(p).unwrap())
        .collect();
    Game::new(rule, Board::from_iter(&cells))
}

fn advance_game(mut game: Game<i16>, steps: usize) -> Game<i16> {
    for _ in 0..steps {
        game.advance();
    }
    game
}

fn shift_board(board: &Board<i16>, dx: i16, dy: i16) -> Board<i16> {
    let cells: Vec<Position<i16>> = board.iter().into_iter().map(|p| Position(p.0 + dx, p.1 + dy)).collect();
    Board::from_iter(&cells)
}

fn population(game: &Game<i16>) -> usize {
    game.board().iter().len()
}

#[test]
fn game_display() {
    let rule = Rule::conways_life();
    let board: Board<i16> = Board::from_iter(&[Position(1, 0), Position(0, 1)]);
    let target = Game::new(rule, board);
    assert_eq!(target.to_string(), ".O\nO.\n");
}

#[test]
fn game_blinker_oscillates() {
    let game = load_game("x = 3, y = 1\n3o!\n");
    let init = game.board().clone();
    let game = advance_game(game, 1);
    assert_ne!(game.board(), &init);
    assert_eq!(game.board(), &Board::from_iter(&[Position(1, -1), Position(1, 0), Position(1, 1)]));
    let game = advance_game(game, 1);
    assert_eq!(game.board(), &init);
}

#[test]
fn game_block_is_still() {
    let game = load_game("x = 2, y = 2\n2o$2o!\n");
    let init = game.board().clone();
    let game = advance_game(game, 1);
    assert_eq!(game.board(), &init);
}

#[test]
fn game_toad_period_two() {
    let game = load_game("x = 4, y = 2\nb3o$3o!\n");
    let init = game.board().clone();
    let game = advance_game(game, 1);
    assert_ne!(game.board(), &init);
    let game = advance_game(game, 1);
    assert_eq!(game.board(), &init);
}

#[test]
fn game_glider_moves() {
    let game = load_game("x = 3, y = 3\nbo$2bo$3o!\n");
    let expected = shift_board(game.board(), 1, 1);
    let game = advance_game(game, 4);
    assert_eq!(game.board(), &expected);
}

#[test]
fn game_lwss_moves() {
    let game = load_game("x = 5, y = 4\nbo2bo$o4b$o3bo$4o!\n");
    let expected = shift_board(game.board(), -2, 0);
    let game = advance_game(game, 4);
    assert_eq!(game.board(), &expected);
}

#[test]
fn game_rpentomino_stabilises() {
    let game = load_game("x = 3, y = 3\nb2o$2o$bo!\n");
    let game = advance_game(game, 1103);
    assert_eq!(population(&game), 116);
}

#[test]
fn game_diehard_dies() {
    let game = load_game("x = 8, y = 3\n6bob$2o6b$bo3b3o!\n");
    let game = advance_game(game, 130);
    assert_eq!(population(&game), 0);
}

#[test]
fn game_highlife_births_on_six() {
    let cells = [Position(0i16, 0i16), Position(1, 0), Position(2, 0), Position(0, 2), Position(1, 2), Position(2, 2)];
    let highlife: Rule = "B36/S23".parse().unwrap();
    let mut life = Game::new(Rule::conways_life(), Board::from_iter(&cells));
    let mut high = Game::new(highlife, Board::from_iter(&cells));
    assert_eq!(high.rule(), &highlife);
    life.advance();
    high.advance();
    assert!(!life.board().get(&Position(1, 1)));
    assert!(high.board().get(&Position(1, 1)));
}

#[test]
fn game_lone_cell_dies() {
    let game = Game::new(Rule::conways_life(), Board::from_iter(&[Position(0i16, 0i16)]));
    let game = advance_game(game, 1);
    assert_eq!(population(&game), 0);
}

#[test]
fn game_near_the_edge_of_coordinates() {
    let cells = [Position(i16::MAX, 0), Position(i16::MAX, 1), Position(i16::MAX, 2)];
    let game = Game::new(Rule::conways_life(), Board::from_iter(&cells));
    let game = advance_game(game, 1);
    assert_eq!(game.board(), &Board::from_iter(&[Position(i16::MAX - 1, 1), Position(i16::MAX, 1)]));
}
