use shatranj::core_types::Square;
use shatranj::keys::stm_key;
use shatranj::movegen::{empty_move_list, generate_all, move_list_count, move_list_entry};
use shatranj::position::Position;

#[test]
fn move_list_functions_read_generated_moves() {
    let pos = Position::startpos();
    let mut moves = empty_move_list();
    assert_eq!(move_list_count(&moves), 0);
    generate_all(&mut moves, &pos);
    assert_eq!(move_list_count(&moves), 16);
    for i in 0..move_list_count(&moves) {
        let mv = move_list_entry(&moves, i);
        assert!(pos.is_legal(mv));
        for j in 0..i {
            assert_ne!(move_list_entry(&moves, j), mv);
        }
    }
}

#[test]
fn square_offset_stays_on_board() {
    assert_eq!(Square::A1.offset(-1), None);
    assert_eq!(Square::A1.offset(-8), None);
    assert_eq!(Square::H8.offset(1), None);
    assert_eq!(Square::H8.offset(8), None);
    assert_eq!(Square::A1.offset(i32::MIN), None);
    assert_eq!(Square::H8.offset(i32::MAX), None);
    assert_eq!(Square::A1.offset(8), Some(Square::A2));
    assert_eq!(Square::A2.offset(-8), Some(Square::A1));
    assert_eq!(Square::E2.offset(0), Some(Square::E2));
}

#[test]
fn nullmove_from_start_leaves_no_check() {
    let pos = Position::startpos();
    let next = pos.apply_nullmove();
    assert!(!next.in_check());
    assert_eq!(next.key(), pos.key() ^ stm_key());
}

#[test]
fn start_position_has_thirty_two_pieces() {
    let pos = Position::startpos();
    assert_eq!(pos.occ().popcount(), 32);
}

#[test]
fn positions_after_moves_keep_at_most_thirty_two_pieces() {
    let mut pos = Position::startpos();
    for _ in 0..12 {
        let mut moves = empty_move_list();
        generate_all(&mut moves, &pos);
        let n = move_list_count(&moves);
        let mv = move_list_entry(&moves, n - 1);
        pos = pos.apply_move(mv);
        assert!(pos.occ().popcount() <= 32);
        assert_eq!(Position::from_fen(&pos.fen()), Ok(pos));
    }
}
