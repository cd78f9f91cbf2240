use shatranj::core_types::Square;
use shatranj::shatranjmove::Move;

#[test]
fn standard() {
    let mv = Move::new(Square::E2, Square::E3);
    assert_eq!(mv.from_sq(), Square::E2);
    assert_eq!(mv.to_sq(), Square::E3);
    assert!(!mv.is_promo());
}

#[test]
fn promo() {
    let mv = Move::new_promo(Square::D7, Square::D8);
    assert_eq!(mv.from_sq(), Square::D7);
    assert_eq!(mv.to_sq(), Square::D8);
    assert!(mv.is_promo());
}

#[test]
fn from_raw() {
    assert!(Move::from_raw(0).is_none());
    assert!(Move::from_raw(0b1110_0000_0000_0000).is_none());
    assert_eq!(
        Move::from_raw(0b0000_0101_0000_1100).unwrap(),
        Move::new(Square::E2, Square::E3)
    );
    assert_eq!(
        Move::from_raw(0b0001_1110_1111_0011).unwrap(),
        Move::new_promo(Square::D7, Square::D8)
    );
}

#[test]
fn move_text() {
    assert_eq!(Move::new(Square::E2, Square::E3).to_string(), "e2e3");
    assert_eq!(Move::new_promo(Square::D7, Square::D8).to_string(), "d7d8q");
}
