use shatranj::bitboard::Bitboard;
use shatranj::builder::{PositionBuilder, PositionBuilderError};
use shatranj::core_types::{Color, Piece, Square};
use shatranj::movegen::{generate_all, MoveList};
use shatranj::position::{DecisiveType, DrawType, FenError, GameOutcome, Position};

#[test]
fn white_threats() {
    let pos = "3k4/8/8/5N2/8/1P6/8/K1Q1RB2 b - - 0 1"
        .parse::<Position>()
        .unwrap();
    assert_eq!(pos.threats(), Bitboard::from_raw(0x1050_9810_9dd8_1b2e));
}

#[test]
fn black_threats() {
    let pos = "2br1q1k/8/6p1/8/2n5/8/8/4K3 w - - 0 1"
        .parse::<Position>()
        .unwrap();
    assert_eq!(pos.threats(), Bitboard::from_raw(0x74d8_1bb9_0819_0a08));
}

const START: &str = "rnbkqbnr/pppppppp/8/8/8/8/PPPPPPPP/RNBKQBNR w - - 0 1";

#[test]
fn startpos_fen() {
    assert_eq!(Position::startpos().fen(), START);
}

#[test]
fn fen_round_trip() {
    let fens = [
        START,
        "3k4/8/8/5N2/8/1P6/8/K1Q1RB2 b - - 0 1",
        "2br1q1k/8/6p1/8/2n5/8/8/4K3 w - - 17 42",
    ];
    for fen in fens {
        let pos: Position = fen.parse().unwrap();
        assert_eq!(pos.fen(), fen);
    }
}

#[test]
fn parse_matches_startpos() {
    let pos: Position = START.parse().unwrap();
    assert_eq!(pos, Position::startpos());
    assert_eq!(pos.key(), Position::startpos().key());
}

#[test]
fn fen_parts_defaults() {
    let pos = Position::from_fen_parts(&["4k3/8/8/8/8/8/8/4K3", "b"]).unwrap();
    assert_eq!(pos.stm(), Color::Black);
    assert_eq!(pos.halfmove(), 0);
    assert_eq!(pos.fullmove(), 1);
    let pos = Position::from_fen_parts(&["4k3/8/8/8/8/8/8/4K3", "w", "-", "-", "+7", "0"]).unwrap();
    assert_eq!(pos.halfmove(), 7);
    assert_eq!(pos.fullmove(), 1);
}

#[test]
fn fen_errors() {
    let err = |s: &str| s.parse::<Position>().unwrap_err();
    assert_eq!(err("8/8/8/8/8/8/8/8"), FenError::TooFewParts);
    assert_eq!(err("4k3/8/8/8/8/8/8/4K3 w - - 0 1 x"), FenError::TooManyParts);
    assert_eq!(err("4k3/8/8/8/8/8/4K3 w"), FenError::TooFewRanks);
    assert_eq!(err("4k3/8/8/8/8/8/8/8/4K3 w"), FenError::TooManyRanks);
    assert_eq!(err("4k3/8/8/7/8/8/8/4K3 w"), FenError::TooFewFiles(3));
    assert_eq!(err("4k3/8/8/8/9/8/8/4K3 w"), FenError::TooManyFiles(4));
    assert_eq!(err("4k3/8/8/8/8/8/8/4K3p w"), FenError::TooManyFiles(7));
    assert_eq!(err("4k3/8/8/8/8/8/8/4X3 w"), FenError::InvalidPiece('X'));
    assert_eq!(err("4k3/8/8/8/8/8/8/8 w"), FenError::MissingWhiteKing);
    assert_eq!(err("4k3/8/8/8/8/8/8/3KK3 w"), FenError::MultipleWhiteKings);
    assert_eq!(err("8/8/8/8/8/8/8/4K3 w"), FenError::MissingBlackKing);
    assert_eq!(err("3kk3/8/8/8/8/8/8/4K3 w"), FenError::MultipleBlackKings);
    assert_eq!(
        err("rrrrrrrr/rrrrrrrr/rrrrrrrr/rrrrrrrk/8/8/8/K7 w"),
        FenError::TooManyPieces
    );
    assert_eq!(err("4k3/8/8/8/8/8/8/4K3 x"), FenError::InvalidStm);
    assert_eq!(err("4k3/8/8/8/8/8/8/4K3 w - - x 1"), FenError::InvalidHalfmove);
    assert_eq!(err("4k3/8/8/8/8/8/8/4K3 w - - -1 1"), FenError::InvalidHalfmove);
    assert_eq!(err("4k3/8/8/8/8/8/8/4K3 w - - 141 1"), FenError::HalfmoveTooHigh);
    assert_eq!(err("4k3/8/8/8/8/8/8/4K3 w - - 0 y"), FenError::InvalidFullmove);
    assert_eq!(err("4k3/8/8/8/8/8/8/4R2K w - - 0 1"), FenError::OpponentInCheck);
}

#[test]
fn startpos_moves() {
    let pos = Position::startpos();
    let mut moves = MoveList::new();
    generate_all(&mut moves, &pos);
    assert_eq!(moves.len(), 16);
    for i in 0..moves.len() {
        let mv = moves[i];
        assert!(pos.is_legal(mv));
    }
}

#[test]
fn double_check_only_king_moves() {
    let pos: Position = "4k3/8/8/8/8/8/2n5/r3K3 w - - 0 1".parse().unwrap();
    assert!(pos.in_check());
    assert_eq!(pos.checkers().popcount(), 2);
    let mut moves = MoveList::new();
    generate_all(&mut moves, &pos);
    for i in 0..moves.len() {
        let mv = moves[i];
        assert_eq!(mv.from_sq(), Square::E1);
        assert!(pos.is_legal(mv));
    }
}

#[test]
fn outcomes() {
    let bare: Position = "4k3/8/8/8/8/8/8/4K3 w - - 0 1".parse().unwrap();
    assert_eq!(
        bare.outcome(),
        Some(GameOutcome::Draw(DrawType::InsufficientMaterial))
    );
    assert_eq!(Position::startpos().outcome(), None);
    let mated: Position = "k7/8/8/8/8/8/1r6/Kr6 w - - 0 1".parse().unwrap();
    assert_eq!(mated.non_mate_outcome(), None);
    assert_eq!(mated.outcome(), Some(GameOutcome::Loss(DecisiveType::Mate)));
    let seventy: Position = "4k3/8/8/8/8/8/8/R3K3 w - - 140 80".parse().unwrap();
    assert_eq!(
        seventy.non_mate_outcome(),
        Some(GameOutcome::Draw(DrawType::SeventyMoveRule))
    );
    let mated_late: Position = "k7/8/8/8/8/8/1r6/Kr6 w - - 140 80".parse().unwrap();
    assert_eq!(
        mated_late.non_mate_outcome(),
        Some(GameOutcome::Loss(DecisiveType::Mate))
    );
    assert!(!seventy.has_bare_king(Color::Black));
}

#[test]
fn builder_builds() {
    let mut builder = PositionBuilder::default();
    assert_eq!(builder.clone().build(Color::White).unwrap_err(), PositionBuilderError::MissingKing(Color::White));
    let mut builder2 = PositionBuilder::default();
    builder2.set_piece(Piece::WhiteKing, Square::E1).unwrap();
    assert_eq!(builder2.clone().build(Color::White).unwrap_err(), PositionBuilderError::MissingKing(Color::Black));
    assert_eq!(builder2.set_piece(Piece::WhiteKing, Square::E2), Err(PositionBuilderError::TooManyKings));
    builder2.set_piece(Piece::BlackKing, Square::E8).unwrap();
    assert_eq!(builder2.set_piece(Piece::WhitePawn, Square::E1), Err(PositionBuilderError::PieceAlreadyOnSquare));
    assert_eq!(builder2.set_halfmove(141), Err(PositionBuilderError::HalfmoveTooHigh));
    builder2.set_halfmove(3).unwrap();
    builder2.set_fullmove(0);
    let pos = builder2.build(Color::Black).unwrap();
    assert_eq!(pos.fen(), "4k3/8/8/8/8/8/8/4K3 b - - 3 1");
    builder.set_piece(Piece::WhiteRook, Square::A1).unwrap();
}

fn legal_moves(pos: &Position) -> Vec<shatranj::shatranjmove::Move> {
    let mut moves = MoveList::new();
    generate_all(&mut moves, pos);
    (0..moves.len()).map(|i| moves[i]).collect()
}

#[test]
fn legal_moves_keep_king_safe() {
    let fens = [
        START,
        "3k4/8/8/5N2/8/1P6/8/K1Q1RB2 b - - 0 1",
        "2br1q1k/8/6p1/8/2n5/8/8/4K3 w - - 0 1",
        "4k3/8/8/4r3/8/8/4R3/4K3 w - - 0 1",
        "4k3/8/8/8/8/8/2n5/r3K3 w - - 0 1",
    ];
    for fen in fens {
        let pos: Position = fen.parse().unwrap();
        for mv in legal_moves(&pos) {
            let next = pos.apply_move(mv);
            let mover = pos.stm();
            assert!(!next.is_attacked(next.king_sq(mover), next.stm()));
            assert_eq!(next.stm(), mover.flip());
        }
    }
}

#[test]
fn pinned_rook_stays_on_pin() {
    let pos: Position = "4k3/8/8/4r3/8/8/4R3/4K3 w - - 0 1".parse().unwrap();
    assert!(pos.pinned().has_sq(Square::E2));
    for mv in legal_moves(&pos) {
        if mv.from_sq() == Square::E2 {
            assert_eq!(mv.to_sq().file(), 4);
        }
    }
}

#[test]
fn fen_reads_back_after_moves() {
    let mut pos = Position::startpos();
    for _ in 0..6 {
        let moves = legal_moves(&pos);
        pos = pos.apply_move(moves[moves.len() / 2]);
        assert_eq!(Position::from_fen(&pos.fen()), Ok(pos));
    }
}

#[test]
fn nullmove_flips_side() {
    let pos = Position::startpos();
    let next = pos.apply_nullmove();
    assert_eq!(next.stm(), Color::Black);
    assert_eq!(next.occ(), pos.occ());
    assert_eq!(next.halfmove(), 1);
    assert_eq!(next.fullmove(), 1);
    assert_ne!(next.key(), pos.key());
    assert_eq!(next.apply_nullmove().key(), pos.key());
}

#[test]
fn legal_move_count_matches_generation() {
    let pos = Position::startpos();
    assert_eq!(shatranj::movegen::legal_move_count(&pos), 16);
    let pos: Position = "4k3/8/8/8/8/8/2n5/r3K3 w - - 0 1".parse().unwrap();
    let mut moves = MoveList::new();
    generate_all(&mut moves, &pos);
    assert_eq!(shatranj::movegen::legal_move_count(&pos), moves.len());
}

#[test]
fn builder_checks_placement() {
    let mut builder = PositionBuilder::default();
    builder.set_piece(Piece::WhiteKing, Square::E1).unwrap();
    builder.set_piece(Piece::BlackKing, Square::E8).unwrap();
    assert!(builder.is_placement_ok());
    let pos = builder.clone().build(Color::White).unwrap();
    assert_eq!(pos.fen(), "4k3/8/8/8/8/8/8/4K3 w - - 0 1");
    builder.set_piece(Piece::BlackPawn, Square::E1).unwrap();
    assert!(!builder.is_placement_ok());
}
