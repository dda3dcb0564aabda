use talv::board::{Colour, Field, Piece};
use talv::boardstate::BoardState;
use talv::location::{Coords, File, Rank};
use talv::rules::Success;

fn sq(s: &str) -> Coords {
    Coords::from_str(s).unwrap()
}

#[test]
fn boardstate_test_start_position_fen() {
    let start_from_fen =
        BoardState::from_fen("rnbqkbnr/pppppppp/8/8/8/8/PPPPPPPP/RNBQKBNR w KQkq - 0 1").unwrap();

    assert_eq!(start_from_fen, BoardState::new());
}

#[test]
fn lib_test_start_position_fen() {
    let start_from_fen =
        BoardState::from_fen("rnbqkbnr/pppppppp/8/8/8/8/PPPPPPPP/RNBQKBNR w KQkq - 0 1").unwrap();

    assert_eq!(start_from_fen, BoardState::new());
}

#[test]
fn start_position_round_trips_through_fen() {
    let text = BoardState::new().display_fen().to_string();
    assert_eq!(text, "rnbqkbnr/pppppppp/8/8/8/8/PPPPPPPP/RNBQKBNR w KQkq -");
    assert_eq!(BoardState::from_fen(&text).unwrap(), BoardState::new());
}

#[test]
fn fen_output_of_a_middle_game() {
    let fen = "r3k2r/pp3ppp/2n5/3pP3/8/5N2/PPP2PPP/R3K2R w Kq d6";
    let state = BoardState::from_fen(fen).unwrap();
    assert_eq!(state.display_fen().to_string(), fen);
    assert_eq!(state.en_passant_target, Some(sq("d6")));
    assert!(state.white_castling.short);
    assert!(!state.white_castling.long);
    assert!(!state.black_castling.short);
    assert!(state.black_castling.long);
}

#[test]
fn malformed_fen_is_refused() {
    assert!(BoardState::from_fen("").is_none());
    assert!(BoardState::from_fen("rnbqkbnr/pppppppp/8/8/8/8/PPPPPPPP/RNBQKBNR w KQkq").is_none());
    assert!(BoardState::from_fen("rnbqkbnr/pppppppp/9/8/8/8/PPPPPPPP/RNBQKBNR w KQkq -").is_none());
    assert!(BoardState::from_fen("rnbqkbnr/ppppppp/8/8/8/8/PPPPPPPP/RNBQKBNR w KQkq -").is_none());
    assert!(BoardState::from_fen("rnbqkbnr/pppppppp/8/8/8/8/PPPPPPPP/RNBQKBNR x KQkq -").is_none());
    assert!(BoardState::from_fen("rnbqkbnr/pppppppp/8/8/8/8/PPPPPPPP/RNBQKBNR w KQkX -").is_none());
    assert!(BoardState::from_fen("rnbqkbnr/pppppppp/8/8/8/8/PPPPPPPP/RNBQKBNR w KQkq e9").is_none());
    assert!(BoardState::from_fen("rnbqkbnr/pppppppp/8/8/8/8/PPPPPPPP/RNBQKBNR w KQkq e4").is_none());
    assert!(BoardState::from_fen("rnbqkbnr/pppppppz/8/8/8/8/PPPPPPPP/RNBQKBNR w KQkq -").is_none());
    assert!(BoardState::from_fen("rnbqkbnr/pppppppp/8/8/8/8/PPPPPPPP w KQkq -").is_none());
    assert!(BoardState::from_fen("rnbqkbnr/pppppppp/8/8/8/8/PPPPPPPP/RNBQKBN w KQkq -").is_none());
    assert!(BoardState::from_fen("rnbqkbnr/pppppppp/8/8/8/8/PPPPPPPP/RNBQKBNR w KQkq E3").is_none());
}

#[test]
fn coordinates_parse() {
    let e4 = sq("e4");
    assert_eq!(e4.f(), File::E);
    assert_eq!(e4.r(), Rank::N4);
    assert_eq!(e4.into_u8(), 28);
    assert_eq!(Coords::from_str("h8").unwrap(), Coords::new(File::H, Rank::N8));
    assert!(Coords::from_str("H8").is_none());
    assert!(Coords::from_str("E4").is_none());
    assert_eq!(File::from_char('a'), Some(File::A));
    assert_eq!(File::from_char('A'), None);
    assert!(Coords::from_str("e9").is_none());
    assert!(Coords::from_str("i1").is_none());
    assert!(Coords::from_str("e44").is_none());
    assert!(Coords::from_str("e").is_none());
    assert_eq!(e4.add(1, 2), Some(sq("f6")));
    assert_eq!(e4.add(4, 0), None);
    assert_eq!(sq("g3").sub(e4), (2, -1));
}

#[test]
fn double_step_sets_en_passant_target() {
    let mut state = BoardState::new();
    let r = state.make_move(sq("e2"), sq("e4"), None);
    assert_eq!(r, Ok(Success::PawnMovement));
    assert_eq!(state.en_passant_target, Some(sq("e3")));
    assert_eq!(state.side_to_move, Colour::Black);
    assert_eq!(state.get(sq("e4")), Field::Occupied(Colour::White, Piece::Pawn));
    assert_eq!(state.get(sq("e2")), Field::Empty);
}

#[test]
fn en_passant_target_lasts_one_move() {
    let mut state = BoardState::new();
    state.make_move(sq("e2"), sq("e4"), None).unwrap();
    state.make_move(sq("g8"), sq("f6"), None).unwrap();
    assert_eq!(state.en_passant_target, None);

    let mut other = BoardState::new();
    other.make_move(sq("e2"), sq("e4"), None).unwrap();
    other.make_move(sq("d7"), sq("d5"), None).unwrap();
    assert_eq!(other.en_passant_target, Some(sq("d6")));
}

#[test]
fn en_passant_capture_removes_the_pawn() {
    let mut state = BoardState::from_fen("4k3/8/8/3pP3/8/8/8/4K3 w - d6").unwrap();
    let r = state.make_move(sq("e5"), sq("d6"), None);
    assert_eq!(r, Ok(Success::Capture));
    assert_eq!(state.get(sq("d5")), Field::Empty);
    assert_eq!(state.get(sq("d6")), Field::Occupied(Colour::White, Piece::Pawn));
}

#[test]
fn refused_move_changes_nothing() {
    let mut state = BoardState::new();
    let before = state;
    assert!(state.make_move(sq("e2"), sq("e5"), None).is_err());
    assert!(state.make_move(sq("e7"), sq("e5"), None).is_err());
    assert!(state.make_move(sq("g1"), sq("g3"), None).is_err());
    assert!(state.make_move(sq("e2"), sq("e4"), Some(Piece::Queen)).is_err());
    assert_eq!(state, before);
    assert_eq!(state.side_to_move, Colour::White);
}

#[test]
fn successful_moves_flip_the_side_once() {
    let mut state = BoardState::new();
    state.make_move(sq("g1"), sq("f3"), None).unwrap();
    assert_eq!(state.side_to_move, Colour::Black);
    state.make_move(sq("b8"), sq("c6"), None).unwrap();
    assert_eq!(state.side_to_move, Colour::White);
}

#[test]
fn castling_moves_the_rook_and_clears_rights() {
    let mut state = BoardState::from_fen("r3k2r/8/8/8/8/8/8/R3K2R w KQkq -").unwrap();
    assert_eq!(state.make_move(sq("e1"), sq("g1"), None), Ok(Success::PieceMovement));
    assert_eq!(state.get(sq("f1")), Field::Occupied(Colour::White, Piece::Rook));
    assert_eq!(state.get(sq("h1")), Field::Empty);
    assert!(!state.white_castling.short && !state.white_castling.long);
    assert!(state.black_castling.short && state.black_castling.long);
    state.make_move(sq("e8"), sq("c8"), None).unwrap();
    assert_eq!(state.get(sq("d8")), Field::Occupied(Colour::Black, Piece::Rook));
    assert_eq!(state.get(sq("a8")), Field::Empty);
    assert!(!state.black_castling.short && !state.black_castling.long);
}

#[test]
fn castling_right_never_returns() {
    let mut state = BoardState::from_fen("r3k2r/8/8/8/8/8/8/R3K2R w KQkq -").unwrap();
    state.make_move(sq("h1"), sq("h2"), None).unwrap();
    assert!(!state.white_castling.short);
    assert!(state.white_castling.long);
    state.make_move(sq("a8"), sq("a7"), None).unwrap();
    assert!(!state.black_castling.long);
    state.make_move(sq("h2"), sq("h1"), None).unwrap();
    state.make_move(sq("a7"), sq("a8"), None).unwrap();
    assert!(!state.white_castling.short);
    assert!(!state.black_castling.long);
    assert!(state.make_move(sq("e1"), sq("g1"), None).is_err());
}

#[test]
fn capture_on_rook_corner_clears_the_right() {
    let mut state = BoardState::from_fen("r3k2r/8/8/8/8/8/8/R3K2R w KQkq -").unwrap();
    state.make_move(sq("a1"), sq("a8"), None).unwrap();
    assert!(!state.black_castling.long);
    assert!(!state.white_castling.long);
    assert!(state.black_castling.short);
}

#[test]
fn castling_through_check_is_refused() {
    let mut state = BoardState::from_fen("4kr2/8/8/8/8/8/8/4K2R w K -").unwrap();
    assert!(state.make_move(sq("e1"), sq("g1"), None).is_err());
    assert!(state.white_castling.short);
}

#[test]
fn castling_past_a_pawn_attack_is_refused() {
    let mut state = BoardState::from_fen("k7/8/8/8/8/8/4p3/4K2R w K -").unwrap();
    assert!(!state.in_check(Colour::White));
    let before = state;
    assert!(state.make_move(sq("e1"), sq("g1"), None).is_err());
    assert_eq!(state, before);
    assert!(!talv::movegen::get_all_moves(&state).contains(&(sq("e1"), sq("g1"), None)));
    let mut free = BoardState::from_fen("k7/8/8/8/8/8/7p/4K2R w K -").unwrap();
    assert!(free.make_move(sq("e1"), sq("g1"), None).is_ok());
}

#[test]
fn promotion_must_be_named() {
    let mut state = BoardState::from_fen("4k3/P7/8/8/8/8/8/4K3 w - -").unwrap();
    let before = state;
    assert!(state.make_move(sq("a7"), sq("a8"), None).is_err());
    assert!(state.make_move(sq("a7"), sq("a8"), Some(Piece::King)).is_err());
    assert!(state.make_move(sq("a7"), sq("a8"), Some(Piece::Pawn)).is_err());
    assert_eq!(state, before);
    assert!(state.make_move(sq("a7"), sq("a8"), Some(Piece::Knight)).is_ok());
    assert_eq!(state.get(sq("a8")), Field::Occupied(Colour::White, Piece::Knight));
}

#[test]
fn rook_on_open_file_gives_check() {
    let state = BoardState::from_fen("4k3/8/8/8/8/8/8/4RK2 b - -").unwrap();
    assert!(state.in_check(Colour::Black));
    assert!(!state.in_check(Colour::White));
    let blocked = BoardState::from_fen("4k3/8/8/4n3/8/8/8/4RK2 b - -").unwrap();
    assert!(!blocked.in_check(Colour::Black));
}

#[test]
fn pseudo_legal_rules() {
    let state = BoardState::new();
    assert!(state.is_pseudo_legal(Colour::White, sq("e2"), sq("e4")));
    assert!(!state.is_pseudo_legal(Colour::White, sq("e2"), sq("e5")));
    assert!(state.is_pseudo_legal(Colour::White, sq("b1"), sq("c3")));
    assert!(!state.is_pseudo_legal(Colour::White, sq("c1"), sq("e3")));
    assert!(!state.is_pseudo_legal(Colour::Black, sq("e2"), sq("e4")));
    assert!(!state.is_pseudo_legal(Colour::White, sq("a1"), sq("a2")));
}

#[test]
fn move_classes() {
    let mut state = BoardState::from_fen("4k3/8/8/8/8/8/3p4/R3K3 w - -").unwrap();
    assert_eq!(state.make_move(sq("a1"), sq("a8"), None), Ok(Success::Check));
    let mut state = BoardState::from_fen("4k3/8/8/8/8/8/3p4/R3K3 w - -").unwrap();
    assert_eq!(state.make_move(sq("e1"), sq("d2"), None), Ok(Success::Capture));
    let mut state = BoardState::from_fen("4k3/8/8/8/8/8/3P4/R3K3 w - -").unwrap();
    assert_eq!(state.make_move(sq("a1"), sq("a2"), None), Ok(Success::PieceMovement));
    let mut state = BoardState::from_fen("8/4k3/8/3P4/8/8/8/4K3 w - -").unwrap();
    assert_eq!(state.make_move(sq("d5"), sq("d6"), None), Ok(Success::PawnMovementAndCheck));
}

#[test]
fn pending_promotion_and_promote() {
    let mut state = BoardState::from_fen("P3k3/8/8/8/8/8/8/4K3 w - -").unwrap();
    assert_eq!(state.pawn_promototion_pending(), Some(sq("a8")));
    assert!(!state.promote(Piece::King));
    assert!(state.promote(Piece::Queen));
    assert_eq!(state.get(sq("a8")), Field::Occupied(Colour::White, Piece::Queen));
    assert_eq!(state.pawn_promototion_pending(), None);
    assert!(!state.promote(Piece::Queen));
}
