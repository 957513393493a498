use rand::RngCore;
use rand::SeedableRng;
use arbor::checkers::{move_sources, square_click, Checkers, Click, Kind, Move, Side, Square, N, NO_PROGRESS_LIMIT};
use arbor::game::{GameResult, GameState};
use arbor::search::MCTS;

fn empty_board() -> [Square; N] {
    [Square::Empty; N]
}

fn sorted(mut moves: Vec<Move>) -> Vec<Move> {
    moves.sort_by_key(|m| (m.from, m.to));
    moves
}

#[test]
fn initial_setup_piece_counts() {
    let g = Checkers::new();

    for sq in 0..12 {
        assert_eq!(g.square[sq], Square::Occupied(Side::Red, Kind::Man));
    }
    for sq in 12..20 {
        assert_eq!(g.square[sq], Square::Empty);
    }
    for sq in 20..32 {
        assert_eq!(g.square[sq], Square::Occupied(Side::White, Kind::Man));
    }

    assert_eq!(g.side, Side::Red);
}

#[test]
fn simple_forward_step_is_legal() {
    let mut board = empty_board();
    board[14] = Square::Occupied(Side::Red, Kind::Man);

    let g = Checkers::debug_state(board, Side::Red);
    let moves = g.actions();

    assert_eq!(sorted(moves), vec![Move { from: 14, to: 17 }, Move { from: 14, to: 18 }]);
}

#[test]
fn man_cannot_capture_backward() {
    let mut board = empty_board();
    board[14] = Square::Occupied(Side::Red, Kind::Man);
    board[9] = Square::Occupied(Side::White, Kind::Man);

    let g = Checkers::debug_state(board, Side::Red);
    let moves = g.actions();

    assert_eq!(sorted(moves), vec![Move { from: 14, to: 17 }, Move { from: 14, to: 18 }]);
}

#[test]
fn capture_is_mandatory() {
    let mut board = empty_board();
    board[14] = Square::Occupied(Side::Red, Kind::Man);
    board[18] = Square::Occupied(Side::White, Kind::Man);
    board[0] = Square::Occupied(Side::Red, Kind::Man);

    let g = Checkers::debug_state(board, Side::Red);
    let moves = g.actions();

    assert_eq!(moves, vec![Move { from: 14, to: 23 }]);
}

#[test]
fn make_capture_removes_jumped_piece() {
    let mut board = empty_board();
    board[14] = Square::Occupied(Side::Red, Kind::Man);
    board[18] = Square::Occupied(Side::White, Kind::Man);

    let g = Checkers::debug_state(board, Side::Red);
    let next = g.make(Move { from: 14, to: 23 });

    assert_eq!(next.square[14], Square::Empty);
    assert_eq!(next.square[18], Square::Empty);
    assert_eq!(next.square[23], Square::Occupied(Side::Red, Kind::Man));
}

fn multi_jump_board() -> Checkers {
    let mut board = empty_board();
    board[8] = Square::Occupied(Side::Red, Kind::Man);
    board[13] = Square::Occupied(Side::White, Kind::Man);
    board[22] = Square::Occupied(Side::White, Kind::Man);
    Checkers::debug_state(board, Side::Red)
}

#[test]
fn multi_jump_forces_continuation() {
    let g = multi_jump_board();

    let first = g.actions();
    assert_eq!(first, vec![Move { from: 8, to: 17 }]);

    let g2 = g.make(Move { from: 8, to: 17 });
    assert_eq!(g2.side, Side::Red);
    assert_eq!(g2.jumping, Some(17));

    let second = g2.actions();
    assert_eq!(second, vec![Move { from: 17, to: 26 }]);
}

#[test]
fn multi_jump_completes_and_switches_side() {
    let g = multi_jump_board();
    let g2 = g.make(Move { from: 8, to: 17 });
    let g3 = g2.make(Move { from: 17, to: 26 });

    assert_eq!(g3.side, Side::White);
    assert_eq!(g3.jumping, None);
    assert_eq!(g3.square[13], Square::Empty);
    assert_eq!(g3.square[22], Square::Empty);
    assert_eq!(g3.square[26], Square::Occupied(Side::Red, Kind::Man));
}

#[test]
fn promotion_ends_turn_even_with_further_capture_available() {
    let mut board = empty_board();
    board[20] = Square::Occupied(Side::Red, Kind::Man);
    board[24] = Square::Occupied(Side::White, Kind::Man);
    board[25] = Square::Occupied(Side::White, Kind::Man);

    let g = Checkers::debug_state(board, Side::Red);
    let moves = g.actions();
    assert_eq!(moves, vec![Move { from: 20, to: 29 }]);

    let g2 = g.make(Move { from: 20, to: 29 });
    assert_eq!(g2.square[29], Square::Occupied(Side::Red, Kind::King));
    assert_eq!(g2.side, Side::White);
    assert_eq!(g2.jumping, None);
    assert_eq!(g2.square[25], Square::Occupied(Side::White, Kind::Man));
}

#[test]
fn king_can_capture_backward() {
    let mut board = empty_board();
    board[17] = Square::Occupied(Side::Red, Kind::King);
    board[13] = Square::Occupied(Side::White, Kind::Man);

    let g = Checkers::debug_state(board, Side::Red);
    let moves = g.actions();

    assert_eq!(moves, vec![Move { from: 17, to: 8 }]);
}

#[test]
fn no_legal_moves_is_a_loss() {
    let mut board = empty_board();
    board[0] = Square::Occupied(Side::Red, Kind::Man);
    board[4] = Square::Occupied(Side::White, Kind::Man);
    board[5] = Square::Occupied(Side::White, Kind::Man);
    board[9] = Square::Occupied(Side::White, Kind::Man);

    let g = Checkers::debug_state(board, Side::Red);
    match g.gameover() {
        Some(GameResult::Lose) => {}
        other => panic!("expected Lose for the blocked side to move, got {:?}", other),
    }
}

#[test]
fn no_progress_triggers_draw() {
    let mut board = empty_board();
    board[17] = Square::Occupied(Side::Red, Kind::King);
    board[13] = Square::Occupied(Side::White, Kind::Man);

    let mut g = Checkers::debug_state(board, Side::Red);
    g.no_progress = NO_PROGRESS_LIMIT;

    match g.gameover() {
        Some(GameResult::Draw) => {}
        other => panic!("expected Draw once the no-progress limit is reached, got {:?}", other),
    }
}

#[test]
fn mcts_finds_a_move_from_the_opening_position() {
    let g = Checkers::new();
    let mut mcts = MCTS::new(g);
    mcts.ponder(2000);
    assert!(mcts.best().is_some());
}

#[test]
fn checkers_load_replays_moves_from_the_opening() {
    let g = Checkers::load(&[Move { from: 9, to: 13 }]);
    assert_eq!(g.square[9], Square::Empty);
    assert_eq!(g.square[13], Square::Occupied(Side::Red, Kind::Man));
    assert_eq!(g.side, Side::White);
}

#[test]
fn checkers_hash_differs_after_a_move_and_is_stable() {
    let g = Checkers::new();
    assert_eq!(g.hash(), Checkers::new().hash());
    let next = g.make(g.actions()[0]);
    assert_ne!(g.hash(), next.hash());
}

#[test]
fn render_shows_the_opening_position() {
    let g = Checkers::new();
    let expected = String::new()
        + "Red Turn\n"
        + "Red: 12, White: 12\n"
        + "  ---------------------------------\n"
        + "7 | w |   | w |   | w |   | w |   |\n"
        + "  ---------------------------------\n"
        + "6 |   | w |   | w |   | w |   | w |\n"
        + "  ---------------------------------\n"
        + "5 | w |   | w |   | w |   | w |   |\n"
        + "  ---------------------------------\n"
        + "4 |   | - |   | - |   | - |   | - |\n"
        + "  ---------------------------------\n"
        + "3 | - |   | - |   | - |   | - |   |\n"
        + "  ---------------------------------\n"
        + "2 |   | r |   | r |   | r |   | r |\n"
        + "  ---------------------------------\n"
        + "1 | r |   | r |   | r |   | r |   |\n"
        + "  ---------------------------------\n"
        + "0 |   | r |   | r |   | r |   | r |\n"
        + "  ---------------------------------\n"
        + "    0   1   2   3   4   5   6   7\n"
        + "\n";
    assert_eq!(g.render(), expected);
}

#[test]
fn render_counts_pieces_and_marks_kings() {
    let mut square = empty_board();
    square[0] = Square::Occupied(Side::Red, Kind::King);
    square[31] = Square::Occupied(Side::White, Kind::Man);
    square[30] = Square::Occupied(Side::White, Kind::King);
    let g = Checkers::debug_state(square, Side::White);
    let text = g.render();
    assert!(text.starts_with("White Turn\nRed: 1, White: 2\n"));
    assert!(text.contains("0 |   | R |"));
    assert!(text.contains("7 | - |   | - |   | W |   | w |   |\n"));
}

#[test]
fn status_names_the_side_to_play_and_the_winner() {
    assert_eq!(Checkers::new().status(), "Red to play");
    // White to move with no piece left: White has lost.
    let mut square = empty_board();
    square[10] = Square::Occupied(Side::Red, Kind::Man);
    let g = Checkers::debug_state(square, Side::White);
    assert_eq!(g.status(), "Game Over! - Red Wins");
    let mut stalled = Checkers::new();
    stalled.no_progress = NO_PROGRESS_LIMIT;
    assert_eq!(stalled.status(), "No Progress! - Draw");
}

#[test]
fn square_click_picks_moves_and_plays_them() {
    let a = Move { from: 9, to: 13 };
    let b = Move { from: 9, to: 14 };
    let c = Move { from: 10, to: 14 };
    let acts = vec![a, b, c];
    assert_eq!(move_sources(&acts), vec![9, 10]);
    // Nothing picked: a movable piece is picked, anything else does nothing.
    assert_eq!(square_click(&acts, None, 9), Click::Select(9));
    assert_eq!(square_click(&acts, None, 13), Click::Idle);
    // Piece 9 picked: its moves play, a click on it drops it, a click on 10 picks 10.
    assert_eq!(square_click(&acts, Some(9), 13), Click::Move(a));
    assert_eq!(square_click(&acts, Some(9), 14), Click::Move(b));
    assert_eq!(square_click(&acts, Some(9), 9), Click::Deselect);
    assert_eq!(square_click(&acts, Some(9), 10), Click::Select(10));
    assert_eq!(square_click(&acts, Some(9), 20), Click::Idle);
    // Only one piece can move: it is picked without a click.
    let only = vec![a, b];
    assert_eq!(square_click(&only, None, 14), Click::Move(b));
    assert_eq!(square_click(&only, None, 9), Click::Idle);
}

#[test]
fn hash_keys_are_the_first_outputs_of_the_seeded_generator() {
    let mut rng = rand_xorshift::XorShiftRng::from_seed([1, 2, 3, 4, 5, 6, 7, 8, 9, 10, 11, 12, 13, 14, 15, 16]);
    let keys: Vec<u64> = (0..128).map(|_| rng.next_u64()).collect();
    let mut square = empty_board();
    square[0] = Square::Occupied(Side::Red, Kind::Man);
    assert_eq!(Checkers::debug_state(square, Side::Red).hash(), keys[0]);
    square[5] = Square::Occupied(Side::White, Kind::King);
    assert_eq!(Checkers::debug_state(square, Side::Red).hash(), keys[0] ^ keys[5 * 4 + 3]);
}
