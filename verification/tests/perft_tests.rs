use shatranj::movegen::{generate_all, MoveList};
use shatranj::perft::{fits_perft, perft, perft_divide};
use shatranj::position::Position;

#[test]
fn perft_startpos_shallow() {
    let pos = Position::startpos();
    assert_eq!(perft(&pos, 0), 16);
    assert_eq!(perft(&pos, 1), 16);
    assert_eq!(perft(&pos, 2), 256);
}

#[test]
fn perft_divide_sums_to_perft() {
    let pos: Position = "2br1q1k/8/6p1/8/2n5/8/8/4K3 w - - 0 1".parse().unwrap();
    let split = perft_divide(&pos, 3);
    let total: usize = split.iter().map(|(_, n)| *n).sum();
    assert_eq!(total, perft(&pos, 3));
    let mut moves = MoveList::new();
    generate_all(&mut moves, &pos);
    assert_eq!(split.len(), moves.len());
    for (i, (mv, n)) in split.iter().enumerate() {
        assert_eq!(*mv, moves[i]);
        let next = pos.apply_move(*mv);
        assert_eq!(*n, perft(&next, 2));
    }
}

#[test]
fn perft_leaves_are_legal_replies() {
    let pos = Position::startpos();
    let mut moves = MoveList::new();
    generate_all(&mut moves, &pos);
    let mut total = 0;
    for i in 0..moves.len() {
        let next = pos.apply_move(moves[i]);
        let mut replies = MoveList::new();
        generate_all(&mut replies, &next);
        total += replies.len();
    }
    assert_eq!(total, perft(&pos, 2));
}

#[test]
fn perft_fits_ordinary_trees() {

    assert!(fits_perft(&Position::startpos(), 3));
    let crowded: Position = "R3R1Nk/1N1N1R1N/1QN1N1R1/1N1N1N1R/2R1N1N1/1R1NBN2/2RQN1K1/R6R w - - 0 1"
        .parse()
        .unwrap();
    assert!(shatranj::movegen::legal_move_count(&crowded) > 128);
    assert!(!fits_perft(&crowded, 1));
    assert_eq!(crowded.non_mate_outcome(), None);
}
