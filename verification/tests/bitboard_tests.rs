use shatranj::bitboard::Bitboard;
use shatranj::core_types::Square;

#[test]
fn operators() {
    let a = Bitboard::from_raw(0xF0);
    let b = Bitboard::from_raw(0x3C);
    assert_eq!((a & b).raw(), 0x30);
    assert_eq!((a | b).raw(), 0xFC);
    assert_eq!((a ^ b).raw(), 0xCC);
    assert_eq!((!a).raw(), !0xF0u64);
    assert_eq!((a >> 4).raw(), 0x0F);
    assert_eq!((a << 4).raw(), 0xF00);
    let mut c = a;
    c &= b;
    assert_eq!(c.raw(), 0x30);
    c |= Bitboard::from_raw(1);
    assert_eq!(c.raw(), 0x31);
    c ^= Bitboard::from_raw(0x11);
    assert_eq!(c.raw(), 0x20);
}

#[test]
fn iteration_lowest_first() {
    let bb = Bitboard::from_raw(0x8000_0000_0000_0081);
    let mut it = bb.into_iter();
    assert_eq!(it.next(), Some(Square::A1));
    assert_eq!(it.next(), Some(Square::H1));
    assert_eq!(it.next(), Some(Square::H8));
    assert_eq!(it.next(), None);
    assert_eq!(bb.popcount(), 3);
    assert_eq!(bb.lsb(), Some(Square::A1));
}

#[test]
fn shifts_stay_on_board() {
    let h_file = Bitboard::file_bb(7);
    assert!(h_file.shift_right().is_empty());
    assert_eq!(h_file.shift_left(), Bitboard::file_bb(6));
    assert!(Bitboard::rank_bb(7).shift_up().is_empty());
    assert_eq!(Bitboard::rank_bb(0).shift_up(), Bitboard::rank_bb(1));
}
