use arbor::game::{GameResult, GameState};
use arbor::onestone::{Move, Onestone, Side, Square};
use arbor::search::MCTS;

#[test]
fn initial_setup_side_a() {
    let g = Onestone::with_seed(42);
    assert_eq!(g.board[0], Square::Piece(Side::A, 1));
    assert_eq!(g.board[1], Square::Piece(Side::A, 2));
    assert_eq!(g.board[2], Square::Piece(Side::A, 4));
    assert_eq!(g.board[5], Square::Piece(Side::A, 3));
    assert_eq!(g.board[6], Square::Piece(Side::A, 5));
    assert_eq!(g.board[10], Square::Piece(Side::A, 6));
    assert_eq!(g.side, Side::A);
}

#[test]
fn initial_setup_side_b() {
    let g = Onestone::with_seed(42);
    assert_eq!(g.board[14], Square::Piece(Side::B, 6));
    assert_eq!(g.board[18], Square::Piece(Side::B, 5));
    assert_eq!(g.board[19], Square::Piece(Side::B, 3));
    assert_eq!(g.board[22], Square::Piece(Side::B, 4));
    assert_eq!(g.board[23], Square::Piece(Side::B, 2));
    assert_eq!(g.board[24], Square::Piece(Side::B, 1));
}

#[test]
fn not_gameover_in_normal_position() {
    let g = Onestone::with_seed(7);
    assert!(g.gameover().is_none());
}

#[test]
fn actions_respect_bounds_and_own_piece_blocking() {
    let mut board = [Square::Empty; 25];
    board[6] = Square::Piece(Side::A, 1);
    board[11] = Square::Piece(Side::A, 2);
    board[7] = Square::Piece(Side::B, 3);

    let g = Onestone::debug_state(board, Side::A, 1);
    let mut moves = g.actions();
    moves.sort_by_key(|m| m.to);

    assert_eq!(moves, vec![Move { number: 1, to: 7 }, Move { number: 1, to: 12 }]);
}

#[test]
fn make_captures_opponent_piece() {
    let mut board = [Square::Empty; 25];
    board[6] = Square::Piece(Side::A, 1);
    board[7] = Square::Piece(Side::B, 3);

    let g = Onestone::debug_state(board, Side::A, 1);
    let next = g.make(Move { number: 1, to: 7 });

    assert_eq!(next.board[7], Square::Piece(Side::A, 1));
    assert_eq!(next.board[6], Square::Empty);

    let b_count = next.board.iter().filter(|sq| matches!(sq, Square::Piece(Side::B, _))).count();
    assert_eq!(b_count, 0);
}

#[test]
fn die_fallback_to_nearest_neighbors() {
    let mut board = [Square::Empty; 25];
    board[0] = Square::Piece(Side::A, 2);
    board[6] = Square::Piece(Side::A, 5);

    let g = Onestone::debug_state(board, Side::A, 3);
    let mut numbers_moved: Vec<u8> = g.actions().iter().map(|m| m.number).collect();
    numbers_moved.sort();
    numbers_moved.dedup();

    assert_eq!(numbers_moved, vec![2, 5]);
}

#[test]
fn die_fallback_single_neighbor_when_only_one_side_available() {
    let mut board = [Square::Empty; 25];
    board[0] = Square::Piece(Side::A, 2);

    let g = Onestone::debug_state(board, Side::A, 6);
    let mut numbers_moved: Vec<u8> = g.actions().iter().map(|m| m.number).collect();
    numbers_moved.sort();
    numbers_moved.dedup();

    assert_eq!(numbers_moved, vec![2]);
}

#[test]
fn gameover_when_mover_reaches_target_corner() {
    let mut board = [Square::Empty; 25];
    board[24] = Square::Piece(Side::A, 1);
    board[0] = Square::Piece(Side::B, 1);

    let g = Onestone::debug_state(board, Side::B, 1);
    match g.gameover() {
        Some(GameResult::Lose) => {}
        other => panic!("expected Lose for the side about to move, got {:?}", other),
    }
}

#[test]
fn gameover_when_next_side_has_no_pieces() {
    let mut board = [Square::Empty; 25];
    board[6] = Square::Piece(Side::A, 1);

    let g = Onestone::debug_state(board, Side::B, 1);
    match g.gameover() {
        Some(GameResult::Lose) => {}
        other => panic!("expected Lose for the side about to move, got {:?}", other),
    }
}

#[test]
fn onestone_search_finds_a_move_from_the_opening_position() {
    let g = Onestone::with_seed(123);
    let mut mcts = MCTS::new(g);
    mcts.ponder(2000);
    assert!(mcts.best().is_some());
}

#[test]
fn onestone_same_seed_gives_the_same_game() {
    let a = Onestone::with_seed(99);
    let b = Onestone::with_seed(99);
    assert_eq!(a.die, b.die);
    assert_eq!(a.board, b.board);
    assert!(a.die >= 1 && a.die <= 6);
}

#[test]
fn onestone_the_die_picks_the_cube_when_it_can_move() {
    let mut board = [Square::Empty; 25];
    board[0] = Square::Piece(Side::A, 2);
    board[6] = Square::Piece(Side::A, 5);
    let g = Onestone::debug_state(board, Side::A, 5);
    let moves = g.actions();
    assert!(!moves.is_empty());
    assert!(moves.iter().all(|m| m.number == 5));
}

#[test]
fn onestone_new_starts_from_the_standard_layout() {
    let g = Onestone::new().expect("the operating system should supply a seed");
    assert_eq!(g.board[0], Square::Piece(Side::A, 1));
    assert_eq!(g.board[24], Square::Piece(Side::B, 1));
    assert_eq!(g.side, Side::A);
    assert!(g.die >= 1 && g.die <= 6);
}

#[test]
fn render_shows_the_die_and_the_cubes() {
    let g = Onestone::with_seed(42);
    let text = g.render();
    let lines: Vec<&str> = text.lines().collect();
    assert_eq!(lines.len(), 12);
    assert_eq!(lines[0], format!("Side A to play, die: {}", g.die));
    assert_eq!(lines[1], "-----------------------------");
    assert_eq!(lines[2], "| [1] | [2] | [4] |     |     |");
    assert_eq!(lines[4], "| [3] | [5] |     |     |     |");
    assert_eq!(lines[6], "| [6] |     |     |     | (6) |");
    assert_eq!(lines[10], "|     |     | (4) | (2) | (1) |");
    assert_eq!(lines[11], "-----------------------------");
    assert!(text.ends_with("-----------------------------\n"));
}

#[test]
fn onestone_status_names_a_corner_reached_win() {
    let mut board = [Square::Empty; 25];
    board[24] = Square::Piece(Side::A, 1); // A reached B's home corner, A's target
    board[0] = Square::Piece(Side::B, 1);
    let g = Onestone::debug_state(board, Side::B, 1);
    assert_eq!(g.status(), "Corner Reached! - Side-Blue Wins");
}

#[test]
fn onestone_status_names_an_all_captured_win() {
    let mut board = [Square::Empty; 25];
    board[6] = Square::Piece(Side::A, 1); // the only piece left on the board
    let g = Onestone::debug_state(board, Side::B, 1);
    assert_eq!(g.status(), "All Captured! - Side-Blue Wins");
}

#[test]
fn status_names_the_side_to_play_and_the_die() {
    let g = Onestone::with_seed(42);
    assert_eq!(g.status(), format!("Side-Blue to play, die: {}", g.die));
    let mut board = [Square::Empty; 25];
    board[0] = Square::Piece(Side::B, 3); // B reached A's home corner, B's target
    board[12] = Square::Piece(Side::A, 2);
    let g = Onestone::debug_state(board, Side::A, 4);
    assert_eq!(g.status(), "Corner Reached! - Side-Red Wins");
}

#[test]
fn from_seed_bytes_reads_a_little_endian_seed() {
    let g = Onestone::from_seed_bytes(Some(vec![0x01, 0x02, 0, 0, 0, 0, 0, 0x80])).expect("8 bytes give a game");
    let h = Onestone::with_seed(0x8000_0000_0000_0201);
    assert_eq!(g.seed, h.seed);
    assert_eq!(g.die, h.die);
    assert_eq!(g.board, h.board);
    assert!(Onestone::from_seed_bytes(None).is_none());
    assert!(Onestone::from_seed_bytes(Some(vec![1, 2, 3])).is_none());
}
