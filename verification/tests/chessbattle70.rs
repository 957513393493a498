use arbor::chessbattle70::game::graphic_path;
use arbor::chessbattle70::check;
use arbor::chessbattle70::setup;
use arbor::chessbattle70::{Board, Game, Piece, PieceType, Player, Pos, RaptorPachydermRules, SpecialMove, HEIGHT, WIDTH};
use arbor::game::{GameResult, GameState};
use arbor::search::MCTS;

#[test]
fn falcon_reaches_exactly_16_squares_when_unobstructed() {
    let mut board = Board::empty();
    board.place_new(Pos::new(3, 5), Piece { player: Player::White, kind: PieceType::Falcon });
    let game = Game::from_setup(board, RaptorPachydermRules::FalconMammoth);
    let moves = game.moves_for(Pos::new(3, 5));
    assert_eq!(moves.len(), 16, "falcon should reach 16 squares on an open board");
}

#[test]
fn mammoth_can_capture_and_stop_or_trample_past() {
    let mut board = Board::empty();
    board.place_new(Pos::new(0, 5), Piece { player: Player::White, kind: PieceType::Mammoth });
    board.place_new(Pos::new(3, 5), Piece { player: Player::Black, kind: PieceType::Pawn });
    let game = Game::from_setup(board, RaptorPachydermRules::FalconMammoth);
    let moves = game.moves_for(Pos::new(0, 5));

    let rightward: Vec<_> = moves.iter().filter(|m| m.to.row == 5 && m.to.col > 0).collect();
    let destinations: Vec<i8> = rightward.iter().map(|m| m.to.col).collect();

    assert!(destinations.contains(&1));
    assert!(destinations.contains(&2));
    assert!(destinations.contains(&3));
    assert!(destinations.contains(&4));
    assert!(destinations.contains(&5));
    assert!(destinations.contains(&6));
    assert_eq!(destinations.len(), 6);

    let capture_and_stop = rightward.iter().find(|m| m.to.col == 3).unwrap();
    assert_eq!(capture_and_stop.captured.unwrap().0, Pos::new(3, 5));

    let trample = rightward.iter().find(|m| m.to.col == 5).unwrap();
    assert_eq!(
        trample.captured.unwrap().0,
        Pos::new(3, 5),
        "trample moves still capture the piece at the pass-through square, not the landing square"
    );
}

#[test]
fn mammoth_does_not_trample_a_second_piece() {
    let mut board = Board::empty();
    board.place_new(Pos::new(0, 5), Piece { player: Player::White, kind: PieceType::Mammoth });
    board.place_new(Pos::new(3, 5), Piece { player: Player::Black, kind: PieceType::Pawn });
    board.place_new(Pos::new(5, 5), Piece { player: Player::Black, kind: PieceType::Pawn });
    let game = Game::from_setup(board, RaptorPachydermRules::FalconMammoth);
    let moves = game.moves_for(Pos::new(0, 5));
    let destinations: Vec<i8> = moves.iter().filter(|m| m.to.row == 5 && m.to.col > 0).map(|m| m.to.col).collect();
    assert!(destinations.contains(&4));
    assert!(!destinations.contains(&5));
    assert!(!destinations.contains(&6));
}

#[test]
fn default_setup_a_army_values() {
    let board = setup::default_setup_a();
    assert_eq!(board.total_value(Player::Black), 72);
    assert_eq!(board.total_value(Player::White), 78);
}

#[test]
fn default_setup_b_is_symmetric() {
    let board = setup::default_setup_b();
    assert_eq!(board.total_value(Player::Black), board.total_value(Player::White));
}

#[test]
fn castling_available_when_rook_started_on_a_corner_and_path_is_clear() {
    let mut board = Board::empty();
    board.place_new(Pos::new(3, 9), Piece { player: Player::White, kind: PieceType::King });
    board.place_new(Pos::new(0, 9), Piece { player: Player::White, kind: PieceType::Rook });
    let game = Game::from_setup(board, RaptorPachydermRules::FalconMammoth);
    let moves = game.moves_for(Pos::new(3, 9));
    let castle = moves.iter().find(|m| matches!(m.special, SpecialMove::Castle { .. }));
    assert!(castle.is_some(), "expected a castling move toward the corner rook");
    let castle = castle.unwrap();
    assert_eq!(castle.to, Pos::new(1, 9));
    if let SpecialMove::Castle { rook_from, rook_to } = castle.special {
        assert_eq!(rook_from, Pos::new(0, 9));
        assert_eq!(rook_to, Pos::new(2, 9));
    }
}

#[test]
fn castling_unavailable_when_rook_did_not_start_on_a_corner() {
    let mut board = Board::empty();
    board.place_new(Pos::new(3, 9), Piece { player: Player::White, kind: PieceType::King });
    board.place_new(Pos::new(1, 9), Piece { player: Player::White, kind: PieceType::Rook });
    let game = Game::from_setup(board, RaptorPachydermRules::FalconMammoth);
    let moves = game.moves_for(Pos::new(3, 9));
    assert!(!moves.iter().any(|m| matches!(m.special, SpecialMove::Castle { .. })));
}

#[test]
fn en_passant_is_offered_immediately_after_a_double_step_and_not_after() {
    let mut board = Board::empty();
    board.place_new(Pos::new(3, 2), Piece { player: Player::Black, kind: PieceType::Pawn });
    board.place_new(Pos::new(2, 4), Piece { player: Player::White, kind: PieceType::Pawn });
    let mut game = Game::from_setup(board, RaptorPachydermRules::FalconMammoth);
    game.current_player = Player::Black;

    let black_moves = game.moves_for(Pos::new(3, 2));
    let double_step = black_moves
        .iter()
        .find(|m| matches!(m.special, SpecialMove::DoublePawnStep))
        .copied()
        .expect("black pawn should have a double-step option from its start square");
    game.make_move(double_step);

    let white_moves = game.moves_for(Pos::new(2, 4));
    let ep = white_moves.iter().find(|m| matches!(m.special, SpecialMove::EnPassant { .. }));
    assert!(ep.is_some(), "white pawn should be able to capture en passant right after black's double step");
    let ep = ep.unwrap();
    assert_eq!(ep.to, Pos::new(3, 3));
    if let SpecialMove::EnPassant { captured_pawn } = ep.special {
        assert_eq!(captured_pawn, Pos::new(3, 4));
    }
}

#[test]
fn king_in_check_is_detected() {
    let mut board = Board::empty();
    board.place_new(Pos::new(3, 9), Piece { player: Player::White, kind: PieceType::King });
    board.place_new(Pos::new(3, 0), Piece { player: Player::Black, kind: PieceType::Rook });
    assert!(check::king_in_check(&board, Player::White, RaptorPachydermRules::FalconMammoth));
}

#[test]
fn legal_moves_excludes_a_pinned_pieces_moves_that_would_expose_the_king() {
    let mut board = Board::empty();
    board.place_new(Pos::new(3, 9), Piece { player: Player::White, kind: PieceType::King });
    board.place_new(Pos::new(3, 8), Piece { player: Player::White, kind: PieceType::Bishop });
    board.place_new(Pos::new(3, 0), Piece { player: Player::Black, kind: PieceType::Rook });

    let moves = check::legal_moves(&board, Player::White, RaptorPachydermRules::FalconMammoth);
    assert!(!moves.iter().any(|m| m.from == Pos::new(3, 8)), "the pinned bishop should have no legal moves");
}

fn ladder_mate_position() -> Board {
    let mut board = Board::empty();
    board.place_new(Pos::new(3, 0), Piece { player: Player::White, kind: PieceType::King });
    board.place_new(Pos::new(0, 1), Piece { player: Player::Black, kind: PieceType::Rook });
    board.place_new(Pos::new(0, 0), Piece { player: Player::Black, kind: PieceType::Rook });
    board
}

#[test]
fn checkmate_is_detected() {
    let board = ladder_mate_position();
    assert_eq!(
        check::game_status(&board, Player::White, RaptorPachydermRules::FalconMammoth),
        check::GameStatus::Checkmate(Player::White),
    );

    let game = Game::from_setup(board, RaptorPachydermRules::FalconMammoth);
    match game.gameover() {
        Some(GameResult::Lose) => {}
        other => panic!("expected Lose (checkmate) for the side to move, got {:?}", other),
    }
}

#[test]
fn stalemate_is_detected() {
    let mut board = Board::empty();
    board.place_new(Pos::new(0, 9), Piece { player: Player::White, kind: PieceType::King });
    board.place_new(Pos::new(2, 8), Piece { player: Player::Black, kind: PieceType::Queen });

    assert!(!check::king_in_check(&board, Player::White, RaptorPachydermRules::FalconMammoth));
    assert_eq!(
        check::game_status(&board, Player::White, RaptorPachydermRules::FalconMammoth),
        check::GameStatus::Stalemate(Player::White),
    );

    let game = Game::from_setup(board, RaptorPachydermRules::FalconMammoth);
    match game.gameover() {
        Some(GameResult::Draw) => {}
        other => panic!("expected a Draw (stalemate), got {:?}", other),
    }
}

#[test]
fn castling_is_unavailable_while_the_king_is_in_check() {
    let mut board = Board::empty();
    board.place_new(Pos::new(3, 9), Piece { player: Player::White, kind: PieceType::King });
    board.place_new(Pos::new(0, 9), Piece { player: Player::White, kind: PieceType::Rook });
    board.place_new(Pos::new(3, 0), Piece { player: Player::Black, kind: PieceType::Rook });

    let game = Game::from_setup(board, RaptorPachydermRules::FalconMammoth);
    let moves = game.moves_for(Pos::new(3, 9));
    assert!(!moves.iter().any(|m| matches!(m.special, SpecialMove::Castle { .. })));
}

#[test]
fn castling_is_unavailable_through_an_attacked_transit_square() {
    let mut board = Board::empty();
    board.place_new(Pos::new(3, 9), Piece { player: Player::White, kind: PieceType::King });
    board.place_new(Pos::new(0, 9), Piece { player: Player::White, kind: PieceType::Rook });
    board.place_new(Pos::new(2, 0), Piece { player: Player::Black, kind: PieceType::Rook });

    let game = Game::from_setup(board, RaptorPachydermRules::FalconMammoth);
    let moves = game.moves_for(Pos::new(3, 9));
    assert!(!moves.iter().any(|m| matches!(m.special, SpecialMove::Castle { .. })));
}

#[test]
fn pawn_promotes_to_queen_on_reaching_the_far_rank() {
    let mut board = Board::empty();
    board.place_new(Pos::new(3, 1), Piece { player: Player::White, kind: PieceType::Pawn });
    let game = Game::from_setup(board, RaptorPachydermRules::FalconMammoth);
    let moves = game.moves_for(Pos::new(3, 1));
    let advance = moves.iter().find(|m| m.to == Pos::new(3, 0)).expect("pawn should be able to advance to the far rank");
    assert_eq!(advance.piece.kind, PieceType::Queen, "a pawn reaching the far rank should auto-promote");

    let mut board = Board::empty();
    board.place_new(Pos::new(2, 1), Piece { player: Player::White, kind: PieceType::Pawn });
    board.place_new(Pos::new(3, 0), Piece { player: Player::Black, kind: PieceType::Rook });
    let game = Game::from_setup(board, RaptorPachydermRules::FalconMammoth);
    let capture = game
        .moves_for(Pos::new(2, 1))
        .into_iter()
        .find(|m| m.to == Pos::new(3, 0))
        .expect("pawn should be able to capture onto the far rank");
    assert_eq!(capture.piece.kind, PieceType::Queen);
}

#[test]
fn random_setup_obeys_the_design_docs_rank_constraints() {
    let king_col = WIDTH / 2;

    for seed in [1u64, 2, 42, 9999, u64::MAX] {
        let board = setup::random_setup(seed);
        for &(player, back_row, middle_row, front_row) in
            &[(Player::Black, 0, 1, 2), (Player::White, HEIGHT - 1, HEIGHT - 2, HEIGHT - 3)]
        {
            for col in 0..WIDTH {
                let back = board.get(Pos::new(col, back_row)).unwrap().kind;
                let middle = board.get(Pos::new(col, middle_row)).unwrap().kind;
                let front = board.get(Pos::new(col, front_row)).unwrap().kind;

                if col == king_col {
                    assert_eq!(back, PieceType::King, "seed {}: {:?}'s king should be dead-centre of the back rank", seed, player);
                } else {
                    assert_ne!(back, PieceType::King, "seed {}: only one king per side", seed);
                    assert_ne!(back, PieceType::Pawn, "seed {}: back rank cannot have pawns", seed);
                }

                assert_ne!(middle, PieceType::King, "seed {}: middle rank cannot have a king", seed);

                assert!(
                    matches!(front, PieceType::Pawn | PieceType::Knight | PieceType::Bishop | PieceType::Falcon),
                    "seed {}: front rank piece {:?} is outside the allowed set",
                    seed,
                    front
                );
            }
        }
    }
}

#[test]
fn random_setup_varies_with_the_seed() {
    let a = setup::random_setup(1);
    let b = setup::random_setup(2);
    assert_ne!(a, b, "different seeds should produce different armies");
}

#[test]
fn random_setup_gives_each_side_an_independently_different_mix() {
    let board = setup::random_setup(1);

    let ranks_for = |rows: [i8; 3]| -> Vec<PieceType> {
        (0..WIDTH)
            .flat_map(|col| rows.iter().map(move |row| board.get(Pos::new(col, *row)).unwrap().kind).collect::<Vec<_>>())
            .collect()
    };

    let black = ranks_for([0, 1, 2]);
    let white = ranks_for([HEIGHT - 1, HEIGHT - 2, HEIGHT - 3]);
    assert_ne!(black, white, "the two sides should not end up with the same piece mix");
}

#[test]
fn new_game_always_starts_in_play_regardless_of_the_random_setup() {
    for _ in 0..20 {
        let g = Game::new();
        assert!(g.gameover().is_none(), "a random opening position should never already be over");

        let count = g.actions().len();
        assert!(count > 0, "White should always have at least one legal opening move");
    }
}

#[test]
fn test_mcts_finds_a_move_from_the_opening_position() {
    let g = Game::new();
    let mut mcts = MCTS::new(g).with_custom_evaluation();
    mcts.ponder(200);
    assert!(mcts.best().is_some());
}

#[test]
fn chess_make_move_passes_the_turn_and_clears_the_double_step_flag() {
    let mut board = Board::empty();
    board.place_new(Pos::new(3, 2), Piece { player: Player::Black, kind: PieceType::Pawn });
    board.place_new(Pos::new(0, 7), Piece { player: Player::White, kind: PieceType::Pawn });
    let mut game = Game::from_setup(board, RaptorPachydermRules::FalconMammoth);
    game.current_player = Player::Black;
    let double = game.moves_for(Pos::new(3, 2)).into_iter().find(|m| matches!(m.special, SpecialMove::DoublePawnStep)).unwrap();
    game.make_move(double);
    assert_eq!(game.current_player, Player::White);
    assert!(game.board.meta(Pos::new(3, 4)).just_double_stepped);
    assert!(game.board.meta(Pos::new(3, 4)).has_moved);
    let step = game.moves_for(Pos::new(0, 7)).into_iter().find(|m| m.to == Pos::new(0, 6)).unwrap();
    game.make_move(step);
    assert!(!game.board.meta(Pos::new(3, 4)).just_double_stepped);
}

#[test]
fn chess_castling_moves_the_rook_beside_the_king() {
    let mut board = Board::empty();
    board.place_new(Pos::new(3, 9), Piece { player: Player::White, kind: PieceType::King });
    board.place_new(Pos::new(6, 9), Piece { player: Player::White, kind: PieceType::Rook });
    let mut game = Game::from_setup(board, RaptorPachydermRules::FalconMammoth);
    let castle = game.moves_for(Pos::new(3, 9)).into_iter().find(|m| matches!(m.special, SpecialMove::Castle { .. })).unwrap();
    assert_eq!(castle.to, Pos::new(5, 9));
    game.make_move(castle);
    assert_eq!(game.board.get(Pos::new(5, 9)).unwrap().kind, PieceType::King);
    assert_eq!(game.board.get(Pos::new(4, 9)).unwrap().kind, PieceType::Rook);
    assert!(game.board.get(Pos::new(6, 9)).is_none());
    assert!(game.board.meta(Pos::new(4, 9)).has_moved);
}

#[test]
fn chess_material_evaluation_is_one_half_when_even_and_favors_the_side_ahead() {
    let g = Game::new();
    assert_eq!(g.custom_evaluation(), 500_000);
    let mut board = Board::empty();
    board.place_new(Pos::new(0, 9), Piece { player: Player::White, kind: PieceType::King });
    board.place_new(Pos::new(6, 0), Piece { player: Player::Black, kind: PieceType::King });
    board.place_new(Pos::new(3, 5), Piece { player: Player::White, kind: PieceType::Queen });
    let g = Game::from_setup(board, RaptorPachydermRules::FalconMammoth);
    // tanh(0.9) = 0.7163..., so 0.5 + 0.5 * tanh(0.9) = 0.858149 in millionths.
    assert_eq!(g.custom_evaluation(), 858_149);
    let mut black = g;
    black.current_player = Player::Black;
    assert_eq!(black.custom_evaluation(), 1_000_000 - 858_149);
}

#[test]
fn chess_seirawan_harper_hawk_combines_knight_and_bishop() {
    let mut board = Board::empty();
    board.place_new(Pos::new(3, 5), Piece { player: Player::White, kind: PieceType::Falcon });
    let game = Game::from_setup(board, RaptorPachydermRules::SeirawanHarper);
    let moves = game.moves_for(Pos::new(3, 5));
    // 8 knight squares plus the bishop's diagonals: 3 on each of the four.
    assert_eq!(moves.len(), 8 + 12);
}

#[test]
fn chess_realism_elephant_needs_a_clear_l_path() {
    let mut board = Board::empty();
    board.place_new(Pos::new(3, 5), Piece { player: Player::White, kind: PieceType::Mammoth });
    // Block every orthogonal neighbour: no L-route is clear, and the rook lines stop at once.
    for (c, r) in [(2, 5), (4, 5), (3, 4), (3, 6)] {
        board.place_new(Pos::new(c, r), Piece { player: Player::White, kind: PieceType::Pawn });
    }
    let game = Game::from_setup(board, RaptorPachydermRules::Realism);
    assert!(game.moves_for(Pos::new(3, 5)).is_empty());
}

#[test]
fn chess_setup_b_places_kings_on_the_centre_file() {
    let b = setup::default_setup_b();
    assert_eq!(b.get(Pos::new(3, 0)), Some(Piece { player: Player::Black, kind: PieceType::King }));
    assert_eq!(b.get(Pos::new(3, 9)), Some(Piece { player: Player::White, kind: PieceType::King }));
    assert_eq!(b.meta(Pos::new(0, 0)).start_pos, Some(Pos::new(0, 0)));
    assert!(b.get(Pos::new(3, 5)).is_none());
}

#[test]
fn chess_no_legal_move_leaves_the_movers_king_attacked() {
    let g = Game::new();
    for mv in g.actions() {
        let next = g.make(mv);
        assert!(!check::king_in_check(&next.board, Player::White, next.rules));
        assert_eq!(next.current_player, Player::Black);
    }
}

#[test]
fn render_lists_the_side_to_move_and_every_rank() {
    let game = Game::new();
    let mut expected = String::from("White to move\n");
    for row in 0..HEIGHT {
        for col in 0..WIDTH {
            let ch = match game.board.get(Pos::new(col, row)) {
                None => '.',
                Some(piece) => {
                    let c = piece.kind.code();
                    if piece.player == Player::White {
                        c
                    } else {
                        c.to_ascii_lowercase()
                    }
                }
            };
            expected.push(ch);
            expected.push(' ');
        }
        expected.push('\n');
    }
    assert_eq!(game.render(), expected);
}

#[test]
fn render_of_a_small_position() {
    let mut board = Board::empty();
    board.place_new(Pos::new(0, 0), Piece { player: Player::White, kind: PieceType::King });
    board.place_new(Pos::new(6, 9), Piece { player: Player::Black, kind: PieceType::Falcon });
    let game = Game::from_setup(board, RaptorPachydermRules::FalconMammoth);
    let text = game.render();
    let lines: Vec<&str> = text.lines().collect();
    assert_eq!(lines.len(), 11);
    assert_eq!(lines[0], "White to move");
    assert_eq!(lines[1], "K . . . . . . ");
    assert_eq!(lines[5], ". . . . . . . ");
    assert_eq!(lines[10], ". . . . . . f ");
}

#[test]
fn chessbattle70_status_names_the_winner_with_a_game_specific_message() {
    // Ladder-mate: two Black Rooks cover every square around White's King.
    let mut board = Board::empty();
    board.place_new(Pos::new(3, 0), Piece { player: Player::White, kind: PieceType::King });
    board.place_new(Pos::new(0, 1), Piece { player: Player::Black, kind: PieceType::Rook });
    board.place_new(Pos::new(0, 0), Piece { player: Player::Black, kind: PieceType::Rook });
    let g = Game::from_setup(board, RaptorPachydermRules::FalconMammoth);
    assert_eq!(g.status(), "Checkmate! - Black Wins");
}

#[test]
fn chessbattle70_status_names_a_stalemate_draw() {
    let mut board = Board::empty();
    board.place_new(Pos::new(0, 9), Piece { player: Player::White, kind: PieceType::King });
    board.place_new(Pos::new(2, 8), Piece { player: Player::Black, kind: PieceType::Queen });
    let g = Game::from_setup(board, RaptorPachydermRules::FalconMammoth);
    assert_eq!(g.status(), "Stalemate! - Draw");
}

#[test]
fn status_names_the_side_to_move_while_the_game_goes_on() {
    assert_eq!(Game::new().status(), "White to move");
}

#[test]
fn graphic_path_names_the_side_and_the_picture() {
    assert_eq!(graphic_path(Piece { player: Player::White, kind: PieceType::King }), "graphics/wking.gif");
    assert_eq!(graphic_path(Piece { player: Player::Black, kind: PieceType::Falcon }), "graphics/bhawk.gif");
    assert_eq!(graphic_path(Piece { player: Player::Black, kind: PieceType::Mammoth }), "graphics/belephant.gif");
    assert_eq!(graphic_path(Piece { player: Player::White, kind: PieceType::Pawn }), "graphics/wpawn.gif");
}
