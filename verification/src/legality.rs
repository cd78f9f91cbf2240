//! What a legal move keeps: the king of the side that made it is safe.
use crate::attacks::piece_attack;
use crate::bitboard::{has_bit, lemma_bit_ops, lemma_popcount_one, lemma_lowest_bit, only_bit_below, popcount_spec, single};
use crate::core_types::{Color, PieceType};
use crate::movegen::{lemma_between_apart, lemma_past_line};
use crate::position::Position;
use crate::rays::{between, lemma_between_symmetric, lemma_rook_attack_between, past};
use crate::shatranjmove::{packed_from, packed_to};
use vstd::prelude::*;

verus! {

/// A piece of the side to move attacks the king of the other side: that
/// king could be captured.
pub open spec fn exposes_king(pos: Position) -> bool {
    exists|a: int|
        #[trigger] pos.attacks_from(
            a,
            pos.side(),
            pos.king_square(pos.them()).index(),
            pos.occupied_bits(),
        )
}

/// A position that a move `m` leads to from `pos`: well formed, with the
/// board after the move and the other side to move.
pub open spec fn follows(next: Position, pos: Position, m: u16) -> bool {
    &&& next.wf()
    &&& next.board() == pos.board_after(m)
    &&& next.side() == pos.them()
}

/// After a move, the king of the side that made it stands on the target
/// square if it moved, and where it stood otherwise.
proof fn lemma_next_king(pos: Position, m: u16, next: Position)
    requires
        pos.wf(),
        pos.move_basics(m),
        follows(next, pos, m),
    ensures
        next.king_square(pos.side()) as int == if pos.board()[packed_from(m)]->0.spec_piece_type() == PieceType::King {
            packed_to(m)
        } else {
            pos.our_king()
        },
{
    let side = pos.side();
    let king = PieceType::King.spec_with_color(side);
    let f = packed_from(m);
    let t = packed_to(m);
    assert(pos.king_ok(side));
    assert(next.king_ok(side)) by {
        assert(next.kings_wf());
        assert(pos.them().opposite() == side);
    }
    if pos.board()[f]->0.spec_piece_type() == PieceType::King {
        crate::core_types::Piece::lemma_parts(pos.board()[f]->0, king);
        assert(next.board()[t] == Some(king));
    } else {
        let k = pos.our_king();
        assert(k != f);
        assert(k != t) by {
            assert(pos.holds_color(k, side));
        }
        assert(next.board()[k] == Some(king));
    }
}

/// After a move the occupied squares are the target square and those that
/// held a piece, but for the square the piece left.
proof fn lemma_next_occupied(pos: Position, m: u16, next: Position, y: int)
    requires
        pos.wf(),
        follows(next, pos, m),
    ensures
        has_bit(next.occupied_bits(), y) == (0 <= y < 64 && (y == packed_to(m) || (y != packed_from(m) && pos.board()[y] is Some))),
{
    lemma_bit_ops();
    assert(has_bit(next.color_bits(Color::White), y) == next.holds_color(y, Color::White));
    assert(has_bit(next.color_bits(Color::Black), y) == next.holds_color(y, Color::Black));
    if 0 <= y < 64 && next.board()[y] is Some {
        let c = next.board()[y]->0.spec_color();
        assert(c == Color::White || c == Color::Black);
    }
}

/// A piece other than a rook attacks the same squares whatever stands
/// around it.
proof fn lemma_attack_not_rook(p: crate::core_types::Piece, a: int, t: int, x: u64, y: u64)
    requires
        p.spec_piece_type() != PieceType::Rook,
    ensures
        piece_attack(p, a, t, x) == piece_attack(p, a, t, y),
{
}

/// A legal king move goes where no piece of the other side attacks, so the
/// king is safe after it.
proof fn lemma_king_move_safe(pos: Position, m: u16, next: Position, a: int)
    requires
        pos.wf(),
        pos.legal_move(m),
        pos.board()[packed_from(m)]->0.spec_piece_type() == PieceType::King,
        follows(next, pos, m),
        next.king_square(pos.side()) as int == packed_to(m),
    ensures
        !next.attacks_from(a, pos.them(), packed_to(m), next.occupied_bits()),
{
    reveal(Position::legal_move);
    reveal(Position::piece_reaches);
    reveal(Position::attack_info_wf);
    let f = packed_from(m);
    let t = packed_to(m);
    let k = pos.our_king();
    let occ = pos.occupied_bits();
    let kocc = occ ^ single(k);
    pos.lemma_legal_basics(m);
    assert(pos.king_ok(pos.side()));
    crate::core_types::Piece::lemma_parts(pos.board()[f]->0, PieceType::King.spec_with_color(pos.side()));
    assert(f == k);
    if next.attacks_from(a, pos.them(), t, next.occupied_bits()) {
        assert(a != t && a != f);
        assert(next.board()[a] == pos.board()[a]);
        let p = pos.board()[a]->0;
        assert(pos.holds_color(a, pos.them()));
        if p.spec_piece_type() == PieceType::Rook {
            lemma_rook_attack_between(a, t, next.occupied_bits());
            lemma_rook_attack_between(a, t, kocc);
            assert forall|y: int| #[trigger] between(a, t, y) implies !has_bit(kocc, y) by {
                lemma_next_occupied(pos, m, next, y);
                lemma_bit_ops();
                crate::bitboard::lemma_single_bit(k, y);
                assert(has_bit(occ, y) == (pos.holds_color(y, Color::White) || pos.holds_color(y, Color::Black))) by {
                    assert(has_bit(pos.color_bits(Color::White), y) == pos.holds_color(y, Color::White));
                    assert(has_bit(pos.color_bits(Color::Black), y) == pos.holds_color(y, Color::Black));
                }
                if 0 <= y < 64 && pos.board()[y] is Some {
                    let c = pos.board()[y]->0.spec_color();
                    assert(c == Color::White || c == Color::Black);
                }
            }
        } else {
            lemma_attack_not_rook(p, a, t, next.occupied_bits(), kocc);
        }
        assert(pos.attacks_from(a, pos.them(), t, kocc));
        assert(pos.threat_at(t));
        assert(has_bit(pos.threat_bits(), t));
    }
}

/// A pinned piece that moves along the ray from its king stays between the
/// king and the pinning piece: it cannot pass over it.
proof fn lemma_pin_ray(pos: Position, m: u16, a: int)
    requires
        pos.wf(),
        pos.legal_move(m),
        pos.board()[packed_from(m)]->0.spec_piece_type() != PieceType::King,
        0 <= a < 64,
        between(a, pos.our_king(), packed_from(m)),
        has_bit(pos.occupied_bits(), a),
        past(pos.our_king(), packed_from(m), packed_to(m)),
        packed_to(m) != a,
    ensures
        between(a, pos.our_king(), packed_to(m)),
{
    reveal(Position::legal_move);
    reveal(Position::piece_reaches);
    reveal(Position::legal_pawn_move);
    let f = packed_from(m);
    let t = packed_to(m);
    let k = pos.our_king();
    let occ = pos.occupied_bits();
    assert(pos.king_ok(pos.side()));
    assert(0 <= k < 64);
    lemma_between_symmetric(a, k, f);
    lemma_between_symmetric(a, k, t);
    crate::attacks::lemma_square_coords(a, t);
    let p = pos.board()[f]->0;
    if !between(k, a, t) {
        if p.spec_piece_type() == PieceType::Rook {
            lemma_rook_attack_between(f, t, occ);
            assert(between(f, t, a));
        } else if p.spec_piece_type() == PieceType::Pawn {
            assert(pos.legal_pawn_move(f, t, crate::shatranjmove::packed_promo(m)));
        } else {
            lemma_past_line(k, f, t);
        }
    }
}

/// A legal move of a piece other than the king does not leave the king
/// attacked: a piece that attacked it before gave check and is captured or
/// blocked, and one uncovered by the move pinned the piece, which stays on
/// the pin.
proof fn lemma_other_move_safe(pos: Position, m: u16, next: Position, a: int)
    requires
        pos.wf(),
        pos.legal_move(m),
        pos.board()[packed_from(m)]->0.spec_piece_type() != PieceType::King,
        follows(next, pos, m),
        next.king_square(pos.side()) as int == pos.our_king(),
    ensures
        !next.attacks_from(a, pos.them(), pos.our_king(), next.occupied_bits()),
{
    reveal(Position::legal_move);
    reveal(Position::attack_info_wf);
    let f = packed_from(m);
    let t = packed_to(m);
    let k = pos.our_king();
    let occ = pos.occupied_bits();
    let nocc = next.occupied_bits();
    let x = pos.checker_bits();
    pos.lemma_legal_basics(m);
    assert(pos.king_ok(pos.side()));
    assert(0 <= k < 64);
    if next.attacks_from(a, pos.them(), k, nocc) {
        assert(a != t && a != f);
        assert(next.board()[a] == pos.board()[a]);
        let p = pos.board()[a]->0;
        assert(pos.holds_color(a, pos.them()));
        lemma_next_occupied(pos, m, next, t);
        assert(has_bit(nocc, t));
        assert forall|y: int| 0 <= y < 64 implies #[trigger] has_bit(occ, y) == (pos.board()[y] is Some) by {
            lemma_bit_ops();
            assert(has_bit(pos.color_bits(Color::White), y) == pos.holds_color(y, Color::White));
            assert(has_bit(pos.color_bits(Color::Black), y) == pos.holds_color(y, Color::Black));
            if pos.board()[y] is Some {
                let c = pos.board()[y]->0.spec_color();
                assert(c == Color::White || c == Color::Black);
            }
        }
        let gives_check = pos.checker_at(a);
        if p.spec_piece_type() != PieceType::Rook {
            lemma_attack_not_rook(p, a, k, nocc, occ);
            assert(gives_check);
        } else {
            lemma_rook_attack_between(a, k, nocc);
            assert(!between(a, k, t));
            if between(a, k, f) {
                assert forall|y: int| #[trigger] between(a, k, y) && has_bit(occ, y) implies y == f by {
                    lemma_next_occupied(pos, m, next, y);
                }
                assert(pos.pins_at(a, f));
                assert(pos.pinned_at(f));
                assert(has_bit(pos.pinned_bits(), f));
                assert(past(k, f, t));
                lemma_pin_ray(pos, m, a);
                assert(false);
            } else {
                lemma_rook_attack_between(a, k, occ);
                assert forall|y: int| #[trigger] between(a, k, y) implies !has_bit(occ, y) by {
                    lemma_next_occupied(pos, m, next, y);
                }
                assert(gives_check);
            }
        }
        assert(has_bit(x, a));
        assert(x != 0) by {
            lemma_bit_ops();
        }
        lemma_popcount_one(x);
        lemma_lowest_bit(x);
        let c = pos.checker_square();
        let s = choose|s: int| #[trigger] only_bit_below(x, s, 64);
        assert(only_bit_below(x, s, 64));
        assert(has_bit(x, c));
        assert(a == c);
        if between(k, c, t) {
            lemma_between_symmetric(a, k, t);
            if p.spec_piece_type() != PieceType::Rook {
                lemma_between_apart(k, a, t);
                assert(piece_attack(p, a, k, occ));
            }
        }
    }
}

/// After a legal move the king of the side that made it is not attacked.
pub proof fn lemma_legal_move_safe(pos: Position, m: u16, next: Position)
    requires
        pos.wf(),
        pos.legal_move(m),
        follows(next, pos, m),
    ensures
        !exposes_king(next),
{
    pos.lemma_legal_basics(m);
    lemma_next_king(pos, m, next);
    assert(next.them() == pos.side());
    assert(next.side() == pos.them());
    let kk = next.king_square(pos.side()).index();
    if exposes_king(next) {
        let a = choose|a: int| #[trigger] next.attacks_from(a, next.side(), kk, next.occupied_bits());
        if pos.board()[packed_from(m)]->0.spec_piece_type() == PieceType::King {
            lemma_king_move_safe(pos, m, next, a);
        } else {
            lemma_other_move_safe(pos, m, next, a);
        }
    }
}

/// A legal move captures the other king only when that king is exposed.
pub proof fn lemma_no_king_capture(pos: Position, m: u16)
    requires
        pos.wf(),
        pos.legal_move(m),
        !exposes_king(pos),
    ensures
        !pos.captures_king(m),
{
    reveal(Position::legal_move);
    reveal(Position::piece_reaches);
    reveal(Position::legal_pawn_move);
    let f = packed_from(m);
    let t = packed_to(m);
    pos.lemma_legal_basics(m);
    if pos.captures_king(m) {
        let them = pos.them();
        assert(pos.king_ok(them));
        let q = pos.board()[t]->0;
        crate::core_types::Piece::lemma_parts(q, PieceType::King.spec_with_color(them));
        assert(q.spec_color() != pos.side());
        assert(t == pos.king_square(them) as int);
        let p = pos.board()[f]->0;
        lemma_bit_ops();
        assert(has_bit(pos.color_bits(them), t) == pos.holds_color(t, them));
        if p.spec_piece_type() == PieceType::Pawn {
            assert(pos.legal_pawn_move(f, t, crate::shatranjmove::packed_promo(m)));
        }
        assert(pos.attacks_from(f, pos.side(), pos.king_square(pos.them()).index(), pos.occupied_bits()));
    }
}

/// Well-formed positions on the same board have the same kings and the
/// same occupied squares.
pub proof fn lemma_same_board(pos: Position, next: Position)
    requires
        pos.wf(),
        next.wf(),
        next.board() == pos.board(),
    ensures
        forall|c: Color| #[trigger] next.king_square(c) == pos.king_square(c),
        next.occupied_bits() == pos.occupied_bits(),
{
    assert forall|c: Color| #[trigger] next.king_square(c) == pos.king_square(c) by {
        assert(pos.king_ok(c) && next.king_ok(c)) by {
            assert(c == Color::White || c == Color::Black);
        }
        assert(next.board()[pos.king_square(c) as int] == Some(PieceType::King.spec_with_color(c)));
        crate::core_types::Square::lemma_from_int(pos.king_square(c));
        crate::core_types::Square::lemma_from_int(next.king_square(c));
    }
    assert forall|c: Color| #[trigger] next.color_bits(c) == pos.color_bits(c) by {
        assert forall|s: int| 0 <= s < 64 implies #[trigger] has_bit(next.color_bits(c), s) == has_bit(pos.color_bits(c), s) by {}
        crate::bitboard::lemma_bits_ext(next.color_bits(c), pos.color_bits(c));
    }
}

/// On the same board with the other side to move, the pieces that check the
/// side now to move are those of the other side that attacked the king
/// before: the side now to move is in check exactly when it could capture
/// the other king before.
proof fn lemma_checks_after_turn(pos: Position, next: Position)
    requires
        pos.wf(),
        next.wf(),
        next.board() == pos.board(),
        next.side() == pos.them(),
    ensures
        (next.checker_bits() != 0) == exposes_king(pos),
{
    reveal(Position::attack_info_wf);
    lemma_same_board(pos, next);
    let occ = pos.occupied_bits();
    assert(next.them() == pos.side());
    let kp = pos.king_square(pos.them()).index();
    crate::bitboard::lemma_empty_iff(next.checker_bits());
    if exposes_king(pos) {
        let a = choose|a: int| #[trigger] pos.attacks_from(a, pos.side(), kp, occ);
        assert(next.checker_at(a));
        assert(has_bit(next.checker_bits(), a));
    }
    if next.checker_bits() != 0 {
        let a = choose|a: int| 0 <= a < 64 && #[trigger] has_bit(next.checker_bits(), a);
        assert(next.checker_at(a));
        assert(pos.attacks_from(a, pos.side(), kp, occ));
    }
}

/// On the same board with the other side to move, the side now to move is
/// in check exactly when the other king was exposed before, and the other
/// king is exposed exactly when the side to move was in check before.
pub proof fn lemma_turn_exposure(pos: Position, next: Position)
    requires
        pos.wf(),
        next.wf(),
        next.board() == pos.board(),
        next.side() == pos.them(),
    ensures
        exposes_king(next) == (pos.checker_bits() != 0),
        (next.checker_bits() != 0) == exposes_king(pos),
{
    lemma_checks_after_turn(pos, next);
    lemma_checks_after_turn(next, pos);
}

/// The move `m` follows the rules of the piece it moves, regardless of the
/// king: a piece of the side to move goes to a square its side does not
/// hold, a pawn as pawns go, any other piece to a square it attacks and
/// without promoting.
pub open spec fn pseudo_legal(pos: Position, m: u16) -> bool {
    let f = packed_from(m);
    let t = packed_to(m);
    &&& f != t
    &&& pos.board()[f] is Some
    &&& pos.board()[f]->0.spec_color() == pos.side()
    &&& !pos.holds_color(t, pos.side())
    &&& if pos.board()[f]->0.spec_piece_type() == PieceType::Pawn {
        pos.legal_pawn_move(f, t, crate::shatranjmove::packed_promo(m))
    } else {
        !crate::shatranjmove::packed_promo(m) && piece_attack(pos.board()[f]->0, f, t, pos.occupied_bits())
    }
}

/// After a move that leaves the king safe, each piece that gave check was
/// captured, or the move stepped between it and the king.
proof fn lemma_checker_answered(pos: Position, m: u16, next: Position, a: int)
    requires
        pos.wf(),
        pseudo_legal(pos, m),
        pos.board()[packed_from(m)]->0.spec_piece_type() != PieceType::King,
        follows(next, pos, m),
        !exposes_king(next),
        pos.checker_at(a),
    ensures
        packed_to(m) == a || between(pos.our_king(), a, packed_to(m)),
{
    let f = packed_from(m);
    let t = packed_to(m);
    let k = pos.our_king();
    let occ = pos.occupied_bits();
    let nocc = next.occupied_bits();
    lemma_next_king(pos, m, next);
    assert(pos.king_ok(pos.side()));
    assert(0 <= k < 64);
    if !(t == a || between(k, a, t)) {
        assert(a != f);
        assert(next.board()[a] == pos.board()[a]);
        let p = pos.board()[a]->0;
        if p.spec_piece_type() == PieceType::Rook {
            lemma_rook_attack_between(a, k, occ);
            lemma_rook_attack_between(a, k, nocc);
            assert forall|y: int| #[trigger] between(a, k, y) implies !has_bit(nocc, y) by {
                lemma_next_occupied(pos, m, next, y);
                lemma_between_symmetric(a, k, y);
                assert(has_bit(occ, y) == (pos.board()[y] is Some)) by {
                    lemma_bit_ops();
                    assert(has_bit(pos.color_bits(Color::White), y) == pos.holds_color(y, Color::White));
                    assert(has_bit(pos.color_bits(Color::Black), y) == pos.holds_color(y, Color::Black));
                    if 0 <= y < 64 && pos.board()[y] is Some {
                        let c = pos.board()[y]->0.spec_color();
                        assert(c == Color::White || c == Color::Black);
                    }
                }
            }
        } else {
            lemma_attack_not_rook(p, a, k, occ, nocc);
        }
        assert(next.them() == pos.side());
        assert(next.attacks_from(a, next.side(), next.king_square(next.them()).index(), nocc));
    }
}

/// Two squares on the same ray from `k` beyond a common square `t` lie one
/// past the other.
proof fn lemma_same_ray(k: int, a1: int, a2: int, t: int)
    requires
        0 <= a1 < 64,
        0 <= a2 < 64,
        a1 != a2,
        between(k, a1, t),
        between(k, a2, t),
    ensures
        between(k, a1, a2) || between(k, a2, a1),
{
    crate::attacks::lemma_square_coords(a1, a2);
}

/// A board with more than one bit set has two different bits.
proof fn lemma_two_bits(x: u64)
    requires
        popcount_spec(x) > 1,
    ensures
        exists|a: int, b: int| 0 <= a < 64 && 0 <= b < 64 && a != b && #[trigger] has_bit(x, a) && #[trigger] has_bit(x, b),
{
    lemma_popcount_one(x);
    crate::bitboard::lemma_empty_witness(x);
    let a = choose|a: int| 0 <= a < 64 && #[trigger] has_bit(x, a);
    if !exists|b: int| 0 <= b < 64 && b != a && #[trigger] has_bit(x, b) {
        assert(only_bit_below(x, a, 64));
    } else {
        let b = choose|b: int| 0 <= b < 64 && b != a && #[trigger] has_bit(x, b);
        assert(has_bit(x, a) && has_bit(x, b));
    }
}

/// The squares between a checking piece and the king are empty.
proof fn lemma_check_line_empty(pos: Position, a: int, y: int)
    requires
        pos.wf(),
        pos.checker_at(a),
        between(pos.our_king(), a, y),
    ensures
        pos.board()[y] is None,
{
    let k = pos.our_king();
    let occ = pos.occupied_bits();
    assert(pos.king_ok(pos.side()));
    assert(0 <= k < 64);
    lemma_between_symmetric(k, a, y);
    let p = pos.board()[a]->0;
    if p.spec_piece_type() == PieceType::Rook {
        lemma_rook_attack_between(a, k, occ);
        assert(!has_bit(occ, y));
        lemma_bit_ops();
        assert(has_bit(pos.color_bits(Color::White), y) == pos.holds_color(y, Color::White));
        assert(has_bit(pos.color_bits(Color::Black), y) == pos.holds_color(y, Color::Black));
        if pos.board()[y] is Some {
            let c = pos.board()[y]->0.spec_color();
            assert(c == Color::White || c == Color::Black);
        }
    } else {
        lemma_between_apart(k, a, y);
        assert(piece_attack(p, a, k, occ));
    }
}

/// A king move that leaves the king safe goes where the other side does not
/// attack.
proof fn lemma_safe_king_move(pos: Position, m: u16, next: Position)
    requires
        pos.wf(),
        pseudo_legal(pos, m),
        pos.board()[packed_from(m)]->0.spec_piece_type() == PieceType::King,
        follows(next, pos, m),
        !exposes_king(next),
    ensures
        !has_bit(pos.threat_bits(), packed_to(m)),
{
    reveal(Position::attack_info_wf);
    let f = packed_from(m);
    let t = packed_to(m);
    let k = pos.our_king();
    let occ = pos.occupied_bits();
    let kocc = occ ^ single(k);
    let nocc = next.occupied_bits();
    lemma_next_king(pos, m, next);
    assert(pos.king_ok(pos.side()));
    crate::core_types::Piece::lemma_parts(pos.board()[f]->0, PieceType::King.spec_with_color(pos.side()));
    assert(f == k);
    if has_bit(pos.threat_bits(), t) {
        assert(pos.threat_at(t));
        let a = choose|a: int| #[trigger] pos.attacks_from(a, pos.them(), t, kocc);
        assert(a != f);
        let p = pos.board()[a]->0;
        assert(a != t);
        assert(next.board()[a] == pos.board()[a]);
        if p.spec_piece_type() == PieceType::Rook {
            lemma_rook_attack_between(a, t, kocc);
            lemma_rook_attack_between(a, t, nocc);
            assert forall|y: int| #[trigger] between(a, t, y) implies !has_bit(nocc, y) by {
                lemma_next_occupied(pos, m, next, y);
                lemma_bit_ops();
                crate::bitboard::lemma_single_bit(k, y);
                assert(has_bit(pos.color_bits(Color::White), y) == pos.holds_color(y, Color::White));
                assert(has_bit(pos.color_bits(Color::Black), y) == pos.holds_color(y, Color::Black));
                if 0 <= y < 64 && pos.board()[y] is Some {
                    let c = pos.board()[y]->0.spec_color();
                    assert(c == Color::White || c == Color::Black);
                }
            }
        } else {
            lemma_attack_not_rook(p, a, t, kocc, nocc);
        }
        assert(next.them() == pos.side());
        assert(next.attacks_from(a, next.side(), next.king_square(next.them()).index(), nocc));
    }
}

/// A pinned piece whose move leaves the king safe stays on the ray from its
/// king.
proof fn lemma_safe_pinned_move(pos: Position, m: u16, next: Position)
    requires
        pos.wf(),
        pseudo_legal(pos, m),
        follows(next, pos, m),
        !exposes_king(next),
        has_bit(pos.pinned_bits(), packed_from(m)),
    ensures
        past(pos.our_king(), packed_from(m), packed_to(m)),
{
    reveal(Position::attack_info_wf);
    let f = packed_from(m);
    let t = packed_to(m);
    let k = pos.our_king();
    let occ = pos.occupied_bits();
    let nocc = next.occupied_bits();
    crate::movegen::lemma_king_not_pinned(pos);
    assert(pos.king_ok(pos.side()));
    assert(0 <= k < 64);
    if pos.board()[f]->0.spec_piece_type() == PieceType::King {
        crate::core_types::Piece::lemma_parts(pos.board()[f]->0, PieceType::King.spec_with_color(pos.side()));
    }
    lemma_next_king(pos, m, next);
    assert(pos.pinned_at(f));
    let r = choose|r: int| #[trigger] pos.pins_at(r, f);
    assert(pos.pins_at(r, f));
    lemma_between_symmetric(r, k, f);
    if !past(k, f, t) {
        assert(r != t);
        assert(next.board()[r] == pos.board()[r]);
        lemma_rook_attack_between(r, k, nocc);
        assert forall|y: int| #[trigger] between(r, k, y) implies !has_bit(nocc, y) by {
            lemma_next_occupied(pos, m, next, y);
            lemma_between_symmetric(r, k, y);
            if y != f && y != t {
                if pos.board()[y] is Some {
                    lemma_bit_ops();
                    assert(has_bit(pos.color_bits(pos.board()[y]->0.spec_color()), y));
                    assert(pos.board()[y]->0.spec_color() == Color::White || pos.board()[y]->0.spec_color() == Color::Black);
                    assert(has_bit(occ, y));
                }
            }
        }
        assert(next.them() == pos.side());
        assert(next.attacks_from(r, next.side(), next.king_square(next.them()).index(), nocc));
    }
}

/// Out of check, a move other than the king's that leaves the king safe
/// answers a single check by capturing the checker or stepping between.
proof fn lemma_safe_check_answer(pos: Position, m: u16, next: Position)
    requires
        pos.wf(),
        pseudo_legal(pos, m),
        pos.board()[packed_from(m)]->0.spec_piece_type() != PieceType::King,
        follows(next, pos, m),
        !exposes_king(next),
        pos.checker_bits() != 0,
    ensures
        popcount_spec(pos.checker_bits()) <= 1,
        between(pos.our_king(), pos.checker_square(), packed_to(m)) || packed_to(m) == pos.checker_square(),
{
    reveal(Position::attack_info_wf);
    let t = packed_to(m);
    let k = pos.our_king();
    let x = pos.checker_bits();
    if popcount_spec(x) > 1 {
        lemma_two_bits(x);
        let (a1, a2) = choose|a: int, b: int| 0 <= a < 64 && 0 <= b < 64 && a != b && #[trigger] has_bit(x, a) && #[trigger] has_bit(x, b);
        assert(pos.checker_at(a1) && pos.checker_at(a2));
        lemma_checker_answered(pos, m, next, a1);
        lemma_checker_answered(pos, m, next, a2);
        if t == a1 {
            lemma_check_line_empty(pos, a2, t);
        } else if t == a2 {
            lemma_check_line_empty(pos, a1, t);
        } else {
            lemma_same_ray(k, a1, a2, t);
            if between(k, a1, a2) {
                lemma_check_line_empty(pos, a1, a2);
            } else {
                lemma_check_line_empty(pos, a2, a1);
            }
        }
    }
    lemma_lowest_bit(x);
    let c = pos.checker_square();
    assert(has_bit(x, c));
    assert(pos.checker_at(c));
    lemma_checker_answered(pos, m, next, c);
}

/// A move by the rules of its piece that leaves the king safe is legal: the
/// converse of the safety of legal moves.
pub proof fn lemma_safe_move_legal(pos: Position, m: u16, next: Position)
    requires
        pos.wf(),
        pseudo_legal(pos, m),
        follows(next, pos, m),
        !exposes_king(next),
    ensures
        pos.legal_move(m),
{
    reveal(Position::legal_move);
    reveal(Position::piece_reaches);
    let f = packed_from(m);
    let t = packed_to(m);
    let p = pos.board()[f]->0;
    if p.spec_piece_type() == PieceType::King {
        lemma_safe_king_move(pos, m, next);
    } else if pos.checker_bits() != 0 {
        lemma_safe_check_answer(pos, m, next);
    }
    if has_bit(pos.pinned_bits(), f) {
        lemma_safe_pinned_move(pos, m, next);
    }
}

/// A legal move follows the rules of the piece it moves.
pub proof fn lemma_legal_is_pseudo(pos: Position, m: u16)
    requires
        pos.legal_move(m),
    ensures
        pseudo_legal(pos, m),
{
    reveal(Position::legal_move);
    reveal(Position::piece_reaches);
}

} // verus!
