use talv::algebraic::{KingThreat, Move, MoveType, Mover};
use talv::board::{Colour, Piece};
use talv::boardstate::BoardState;
use talv::eval::{INFINITY, eval};
use talv::game::Game;
use talv::location::{Coords, File, Rank};
use talv::movegen::{
    AddMove, MoveBuffer, NoMoreSpace, any_legal_moves, gen_legal_moves, get_all_moves,
    possible_moves,
};
use talv::search::get_moves_ranked;

fn sq(s: &str) -> Coords {
    Coords::from_str(s).unwrap()
}

#[test]
fn start_position_has_twenty_moves() {
    let moves = get_all_moves(&BoardState::new());
    assert_eq!(moves.len(), 20);
}

#[test]
fn start_position_has_no_castle() {
    let moves = get_all_moves(&BoardState::new());
    assert_eq!(moves.len(), 20);
    for (from, to, promotion) in &moves {
        let (df, _) = to.sub(*from);
        assert!(!(from == &sq("e1") && (df == 2 || df == -2)));
        assert_eq!(*promotion, None);
    }
    assert_eq!(moves[0], (sq("b1"), sq("c3"), None));
}

#[test]
fn scenario_e4_sets_target_and_turn() {
    let mut state = BoardState::new();
    state.make_move(sq("e2"), sq("e4"), None).unwrap();
    assert_eq!(state.en_passant_target, Some(sq("e3")));
    assert_eq!(state.side_to_move, Colour::Black);
}

#[test]
fn generation_includes_castling_and_promotions() {
    let state = BoardState::from_fen("4k3/P7/8/8/8/8/8/4K2R w K -").unwrap();
    let moves = get_all_moves(&state);
    assert!(moves.contains(&(sq("e1"), sq("g1"), None)));
    assert!(moves.contains(&(sq("a7"), sq("a8"), Some(Piece::Queen))));
    assert!(moves.contains(&(sq("a7"), sq("a8"), Some(Piece::Knight))));
    assert!(moves.contains(&(sq("a7"), sq("a8"), Some(Piece::Rook))));
    assert!(moves.contains(&(sq("a7"), sq("a8"), Some(Piece::Bishop))));
    assert!(!moves.contains(&(sq("a7"), sq("a8"), None)));
}

#[test]
fn pinned_piece_may_only_move_along_the_pin() {
    let state = BoardState::from_fen("4r1k1/8/8/8/8/8/4R3/4K3 w - -").unwrap();
    let moves = get_all_moves(&state);
    for (from, to, _) in &moves {
        if *from == sq("e2") {
            assert_eq!(to.f(), File::E);
        }
    }
    assert!(moves.contains(&(sq("e2"), sq("e8"), None)));
}

#[test]
fn bounded_buffer_reports_lack_of_space() {
    let state = BoardState::new();
    let mut buf = MoveBuffer::new(5);
    let r = gen_legal_moves(&mut buf, &state);
    assert!(r.is_err());
    assert_eq!(buf.moves().len(), 5);
    assert_eq!(buf.moves()[..], get_all_moves(&state)[..5]);
    let mut big = MoveBuffer::new(200);
    assert!(gen_legal_moves(&mut big, &state).is_ok());
    assert_eq!(big.moves().len(), 20);
    let mut full = MoveBuffer::new(0);
    assert!(full.add_move((sq("e2"), sq("e4"), None)).is_err());
    let _: Option<NoMoreSpace> = None;
}

#[test]
fn any_legal_moves_detects_mate() {
    assert!(any_legal_moves(&BoardState::new()));
    let mated = BoardState::from_fen("R5k1/5ppp/8/8/8/8/8/6K1 b - -").unwrap();
    assert!(!any_legal_moves(&mated));
    assert!(get_all_moves(&mated).is_empty());
}

#[test]
fn possible_moves_name_the_piece() {
    let moves = possible_moves(&BoardState::new());
    assert_eq!(moves.len(), 20);
    assert_eq!(moves[0], (Piece::Knight, sq("b1"), sq("c3"), None));
    assert!(moves.contains(&(Piece::Pawn, sq("e2"), sq("e4"), None)));
}

#[test]
fn evaluator_scores_mate_and_stalemate() {
    let mated = BoardState::from_fen("R5k1/5ppp/8/8/8/8/8/6K1 b - -").unwrap();
    assert!(mated.in_check(Colour::Black));
    assert_eq!(eval(&mated), -INFINITY);
    let stalemate = BoardState::from_fen("7k/5Q2/6K1/8/8/8/8/8 b - -").unwrap();
    assert!(!stalemate.in_check(Colour::Black));
    assert_eq!(eval(&stalemate), 0);
}

#[test]
fn evaluator_material_values() {
    assert_eq!(eval(&BoardState::new()), 0);
    let mut state = BoardState::new();
    state.make_move(sq("e2"), sq("e4"), None).unwrap();
    assert_eq!(eval(&state), -7);
    let mating = BoardState::from_fen("R5k1/5ppp/8/8/8/8/8/6K1 w - -").unwrap();
    assert_eq!(eval(&mating), INFINITY);
    let checking = BoardState::from_fen("R5k1/6pp/8/8/8/8/8/6K1 w - -").unwrap();
    assert_eq!(eval(&checking), 10_000 + (5_000 - 2_200) / 5);
}

#[test]
fn search_finds_mate_in_one() {
    let state = BoardState::from_fen("6k1/5ppp/8/8/8/8/8/R5K1 w - -").unwrap();
    let (score, moves) = get_moves_ranked(&state, 1, usize::MAX);
    assert_eq!(score, INFINITY);
    assert_eq!(moves[0], (sq("a1"), sq("a8"), None));
    assert_eq!(moves.len(), get_all_moves(&state).len());
}

#[test]
fn search_of_mated_side_is_empty() {
    let mated = BoardState::from_fen("R5k1/5ppp/8/8/8/8/8/6K1 b - -").unwrap();
    assert_eq!(eval(&mated), -INFINITY);
    let (score, moves) = get_moves_ranked(&mated, 1, usize::MAX);
    assert!(moves.is_empty());
    assert_eq!(score, 0);
}

#[test]
fn ranking_is_deterministic() {
    let state = BoardState::from_fen("r1bqkbnr/pppp1ppp/2n5/4p3/4P3/5N2/PPPP1PPP/RNBQKB1R w KQkq -")
        .unwrap();
    let a = get_moves_ranked(&state, 2, 5_000);
    let b = get_moves_ranked(&state, 2, 5_000);
    assert_eq!(a, b);
    assert_eq!(a.1.len(), get_all_moves(&state).len());
}

#[test]
fn ranking_without_depth_keeps_generation_order() {
    let state = BoardState::new();
    let (score, moves) = get_moves_ranked(&state, 0, 100);
    assert_eq!(score, 0);
    assert_eq!(moves, get_all_moves(&state));
}

#[test]
fn algebraic_moves_parse() {
    let m = Move::from_str("Nbd7").unwrap();
    assert_eq!(
        m.move_type,
        MoveType::Regular {
            mover: Mover::PieceAtLetter(Piece::Knight, File::B),
            captures: false,
            destination: sq("d7"),
            promotes: None,
        }
    );
    assert_eq!(m.king_threat, KingThreat::NoThreat);
    let m = Move::from_str("exd5").unwrap();
    assert_eq!(
        m.move_type,
        MoveType::Regular {
            mover: Mover::PieceAtLetter(Piece::Pawn, File::E),
            captures: true,
            destination: sq("d5"),
            promotes: None,
        }
    );
    let m = Move::from_str("e8=Q+").unwrap();
    assert_eq!(
        m.move_type,
        MoveType::Regular {
            mover: Mover::Piece(Piece::Pawn),
            captures: false,
            destination: sq("e8"),
            promotes: Some(Piece::Queen),
        }
    );
    assert_eq!(m.king_threat, KingThreat::Check);
    assert_eq!(Move::from_str("O-O-O").unwrap().move_type, MoveType::LongCastle);
    let m = Move::from_str("0-0#").unwrap();
    assert_eq!(m.move_type, MoveType::ShortCastle);
    assert_eq!(m.king_threat, KingThreat::CheckMate);
    assert_eq!(Move::from_str("Qh4++").unwrap().king_threat, KingThreat::CheckMate);
    let m = Move::from_str("R1a3").unwrap();
    assert_eq!(
        m.move_type,
        MoveType::Regular {
            mover: Mover::PieceAtNumber(Piece::Rook, Rank::N1),
            captures: false,
            destination: sq("a3"),
            promotes: None,
        }
    );
    let m = Move::from_str("Ng1f3").unwrap();
    assert_eq!(
        m.move_type,
        MoveType::Regular {
            mover: Mover::PieceAt(Piece::Knight, sq("g1")),
            captures: false,
            destination: sq("f3"),
            promotes: None,
        }
    );
    assert!(Move::from_str("").is_none());
    assert!(Move::from_str("Z4").is_none());
    assert!(Move::from_str("N").is_none());
}

#[test]
fn game_resolves_algebraic_moves() {
    let game = Game::new();
    let m = Move::from_str("e4").unwrap();
    assert_eq!(game.check_move(m), Some((sq("e2"), sq("e4"), None)));
    let m = Move::from_str("Nf3").unwrap();
    assert_eq!(game.check_move(m), Some((sq("g1"), sq("f3"), None)));
    let m = Move::from_str("O-O").unwrap();
    assert_eq!(game.check_move(m), Some((sq("e1"), sq("g1"), None)));
    let m = Move::from_str("exd5").unwrap();
    assert_eq!(game.check_move(m), None);
    let m = Move::from_str("Nf6").unwrap();
    assert_eq!(game.check_move(m), None);
}

#[test]
fn game_refuses_ambiguous_moves() {
    let game = Game::from_fen("4k3/8/8/8/8/8/8/1N2KN2 w - - 0 1").unwrap();
    assert_eq!(game.check_move(Move::from_str("Nd2").unwrap()), None);
    assert_eq!(game.check_move(Move::from_str("Nbd2").unwrap()), Some((sq("b1"), sq("d2"), None)));
    assert_eq!(game.check_move(Move::from_str("N1d2").unwrap()), None);
}

#[test]
fn game_fen_round_trip() {
    let game = Game::new();
    assert_eq!(
        game.display_fen().to_string(),
        "rnbqkbnr/pppppppp/8/8/8/8/PPPPPPPP/RNBQKBNR w KQkq - 0 1"
    );
    let fen = "rnbqkbnr/pppppppp/8/8/8/5N2/PPPPPPPP/RNBQKB1R b KQkq - 5 12";
    let game = Game::from_fen(fen).unwrap();
    assert_eq!(game.display_fen().to_string(), fen);
    assert_eq!(game.side_to_move(), Colour::Black);
    assert!(Game::from_fen("rnbqkbnr/pppppppp/8/8/8/8/PPPPPPPP/RNBQKBNR w KQkq - 0 0").is_none());
    assert!(Game::from_fen("rnbqkbnr/pppppppp/8/8/8/8/PPPPPPPP/RNBQKBNR w KQkq - x 1").is_none());
    assert!(Game::from_fen("rnbqkbnr/pppppppp/8/8/8/8/PPPPPPPP/RNBQKBNR w KQkq - 0").is_none());
}

#[test]
fn game_moves_and_counters() {
    let mut game = Game::new();
    assert!(game.make_move(sq("e2"), sq("e4"), None));
    assert_eq!(
        game.display_fen().to_string(),
        "rnbqkbnr/pppppppp/8/8/4P3/8/PPPP1PPP/RNBQKBNR b KQkq e3 1 1"
    );
    assert!(!game.make_move(sq("e4"), sq("e5"), None));
    assert!(game.make_move(sq("g8"), sq("f6"), None));
    assert_eq!(game.fullmove_count, 2);
    assert_eq!(game.side_to_move(), Colour::White);
    assert!(!game.is_checked(Colour::White));
    assert_eq!(game.board_state().side_to_move, Colour::White);
    assert!(!game.draw_claimable());
}

#[test]
fn game_refuses_moves_into_check() {
    let mut game = Game::from_fen("4k3/8/8/8/8/8/4r3/4K3 w - - 0 1").unwrap();
    assert!(game.is_checked(Colour::White));
    assert!(!game.make_move(sq("e1"), sq("f2"), None));
    assert!(game.make_move(sq("e1"), sq("e2"), None));
    let mut game = Game::from_fen("4k3/8/8/8/8/8/8/3rK3 w - - 0 1").unwrap();
    assert!(!game.make_move(sq("e1"), sq("f1"), None));
    assert!(game.make_move(sq("e1"), sq("d1"), None));
}

#[test]
fn draw_by_bare_kings_and_repetition() {
    let game = Game::from_fen("4k3/8/8/8/8/8/8/4K3 w - - 0 1").unwrap();
    assert!(game.draw_claimable());
    let mut game = Game::from_fen("4k3/8/8/8/8/8/8/R3K3 w - - 0 1").unwrap();
    assert!(!game.draw_claimable());
    for _ in 0..2 {
        assert!(game.make_move(sq("a1"), sq("a2"), None));
        assert!(game.make_move(sq("e8"), sq("d8"), None));
        assert!(game.make_move(sq("a2"), sq("a1"), None));
        assert!(game.make_move(sq("d8"), sq("e8"), None));
    }
    assert!(!game.draw_claimable());
    assert!(game.make_move(sq("a1"), sq("a2"), None));
    assert!(game.make_move(sq("e8"), sq("d8"), None));
    assert!(game.make_move(sq("a2"), sq("a1"), None));
    assert!(game.make_move(sq("d8"), sq("e8"), None));
    assert!(game.draw_claimable());
}

#[test]
fn fifty_move_clock_claims_a_draw() {
    let mut game = Game::from_fen("4k3/8/8/8/8/8/8/R3K3 w - - 99 80").unwrap();
    assert!(!game.draw_claimable());
    assert!(game.make_move(sq("a1"), sq("a2"), None));
    assert!(game.draw_claimable());
}

#[test]
fn game_promotion() {
    let mut game = Game::from_fen("P3k3/8/8/8/8/8/8/4K3 b - - 0 1").unwrap();
    assert!(game.pawn_promototion_pending());
    assert!(game.promote(Piece::Rook));
    assert!(!game.pawn_promototion_pending());
}

#[test]
fn algebraic_moves_print() {
    for text in ["Nbd7", "exd5", "e8=Q+", "O-O-O", "Ng1f3", "R1a3", "Qh4#", "e4"] {
        assert_eq!(Move::from_str(text).unwrap().to_string(), text);
    }
    assert_eq!(Move::from_str("0-0++").unwrap().to_string(), "O-O#");
}
