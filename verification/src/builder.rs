//! Setting up a position piece by piece.
use crate::bitboard::{has_bit, single};
use crate::core_types::{Color, Piece, PieceType, Square};
use crate::position::Position;
use vstd::prelude::*;

verus! {

#[derive(Copy, Clone, Eq, PartialEq, Debug, Structural)]
pub enum PositionBuilderError {
    MissingKing(Color),
    TooManyKings,
    PieceAlreadyOnSquare,
    HalfmoveTooHigh,
}

/// A position being set up: the pieces placed so far, whether each side has
/// been given its king, and the counters.
#[derive(Clone)]
pub struct PositionBuilder {
    pos: Position,
    has_king: [bool; 2],
}

impl PositionBuilder {
    /// The squares of `color`'s pieces placed so far.
    pub closed spec fn color_bits(self, color: Color) -> u64 {
        self.pos.color_bits(color)
    }

    /// The squares of the pieces of type `pt` placed so far.
    pub closed spec fn piece_bits(self, pt: PieceType) -> u64 {
        self.pos.piece_bits(pt)
    }

    /// `color` has been given its king.
    pub closed spec fn king_given(self, color: Color) -> bool {
        self.has_king@[color as int]
    }

    pub closed spec fn halfmove_value(self) -> u16 {
        self.pos.halfmove_value()
    }

    pub closed spec fn fullmove_value(self) -> u32 {
        self.pos.fullmove_value()
    }

    /// The pieces placed so far make a board: no square holds two, and each
    /// side has one king.
    pub closed spec fn placement_ok(self) -> bool {
        self.pos.bits_wf()
    }

    /// Whether the pieces placed so far make a board, so that `build` may be
    /// called once each side has been given its king.
    pub fn is_placement_ok(&self) -> (r: bool)
        ensures
            r == self.placement_ok(),
    {
        let mut i: u8 = 0;
        while i < 64
            invariant
                i <= 64,
                forall|s: int| 0 <= s < i ==> #[trigger] self.pos.square_bits_ok(s),
            decreases 64 - i,
        {
            let sq = Square::from_index(i);
            if !square_ok(&self.pos, sq) {
                return false;
            }
            i = i + 1;
        }
        let white = self.pos.piece_bb(Piece::WhiteKing).popcount();
        let black = self.pos.piece_bb(Piece::BlackKing).popcount();
        white == 1 && black == 1
    }

    /// The position with the pieces placed, `stm` to move; it fails when a
    /// side has not been given its king, white first.
    pub fn build(self, stm: Color) -> (r: Result<Position, PositionBuilderError>)
        requires
            self.king_given(Color::White) && self.king_given(Color::Black) ==> self.placement_ok(),
        ensures
            !self.king_given(Color::White) ==> r == Err::<Position, PositionBuilderError>(PositionBuilderError::MissingKing(Color::White)),
            self.king_given(Color::White) && !self.king_given(Color::Black) ==> r == Err::<Position, PositionBuilderError>(PositionBuilderError::MissingKing(Color::Black)),
            self.king_given(Color::White) && self.king_given(Color::Black) ==> (r matches Ok(pos) && pos.wf()
                && (forall|c: Color| #[trigger] pos.color_bits(c) == self.color_bits(c))
                && (forall|pt: PieceType| #[trigger] pos.piece_bits(pt) == self.piece_bits(pt))
                && pos.side() == stm && pos.halfmove_value() == self.halfmove_value()
                && pos.fullmove_value() == self.fullmove_value()),
    {
        let mut this = self;
        let mut colors = Color::all();
        loop
            invariant_except_break
                0 <= colors.position() <= 2,
                forall|i: int| 0 <= i < colors.position() ==> #[trigger] self.has_king@[i],
            invariant
                this == self,
            ensures
                self.has_king@[0] && self.has_king@[1],
            decreases 2 - colors.position(),
        {
            match colors.next() {
                Some(color) => {
                    if !this.has_king[color.idx()] {
                        return Err(PositionBuilderError::MissingKing(color));
                    }
                },
                None => {
                    break;
                },
            }
        }
        proof {
            assert(self.king_given(Color::White) && self.king_given(Color::Black));
        }
        let halfmove = this.pos.halfmove();
        let fullmove = this.pos.fullmove();
        this.pos.set_counters(stm, halfmove, fullmove);
        proof {
            assert(this.pos.color_bits(Color::White) == self.pos.color_bits(Color::White));
            assert(this.pos.color_bits(Color::Black) == self.pos.color_bits(Color::Black));
            assert forall|s: int| 0 <= s < 64 implies #[trigger] this.pos.square_bits_ok(s) by {
                assert(self.pos.square_bits_ok(s));
                if exists|pt: PieceType| #[trigger] has_bit(self.pos.piece_bits(pt), s) {
                    let pt = choose|pt: PieceType| #[trigger] has_bit(self.pos.piece_bits(pt), s);
                    assert(has_bit(this.pos.piece_bits(pt), s));
                }
                if exists|pt: PieceType| #[trigger] has_bit(this.pos.piece_bits(pt), s) {
                    let pt = choose|pt: PieceType| #[trigger] has_bit(this.pos.piece_bits(pt), s);
                    assert(has_bit(self.pos.piece_bits(pt), s));
                }
                assert forall|a: PieceType, b: PieceType| #[trigger] has_bit(this.pos.piece_bits(a), s) && #[trigger] has_bit(this.pos.piece_bits(b), s) implies a == b by {
                    assert(has_bit(self.pos.piece_bits(a), s) && has_bit(self.pos.piece_bits(b), s));
                }
            }
            assert(this.pos.piece_bits(PieceType::King) == self.pos.piece_bits(PieceType::King));
        }
        this.pos.regen();
        Ok(this.pos)
    }

    /// Places `piece` on `sq`. A second king of a side is refused, and so is
    /// a square that already holds a piece of the same color or of the same
    /// type. A king's side counts as given its king before the square is
    /// looked at.
    pub fn set_piece(&mut self, piece: Piece, sq: Square) -> (r: Result<(), PositionBuilderError>)
        ensures
            ({
                let king = piece.spec_piece_type() == PieceType::King;
                let c = piece.spec_color();
                let occupied = has_bit(old(self).color_bits(c), sq as int) || has_bit(old(self).piece_bits(piece.spec_piece_type()), sq as int);
                &&& (king && old(self).king_given(c)) ==> r == Err::<(), PositionBuilderError>(PositionBuilderError::TooManyKings) && *final(self) == *old(self)
                &&& !(king && old(self).king_given(c)) && occupied ==> r == Err::<(), PositionBuilderError>(PositionBuilderError::PieceAlreadyOnSquare)
                &&& !(king && old(self).king_given(c)) && !occupied ==> r is Ok
                &&& !(king && old(self).king_given(c)) ==> (forall|cc: Color| #[trigger] final(self).king_given(cc) == (old(self).king_given(cc) || (king && cc == c)))
                &&& !(king && old(self).king_given(c)) ==> (forall|cc: Color| #[trigger] final(self).color_bits(cc) == if !occupied && cc == c {
                    old(self).color_bits(cc) | single(sq as int)
                } else {
                    old(self).color_bits(cc)
                })
                &&& !(king && old(self).king_given(c)) ==> (forall|pt: PieceType| #[trigger] final(self).piece_bits(pt) == if !occupied && pt == piece.spec_piece_type() {
                    old(self).piece_bits(pt) | single(sq as int)
                } else {
                    old(self).piece_bits(pt)
                })
                &&& final(self).halfmove_value() == old(self).halfmove_value()
                &&& final(self).fullmove_value() == old(self).fullmove_value()
            }),
    {
        if piece.piece_type() == PieceType::King {
            if self.has_king[piece.color().idx()] {
                return Err(PositionBuilderError::TooManyKings);
            }
            self.has_king.set(piece.color().idx(), true);
        }
        if self.pos.color_bb(piece.color()).has_sq(sq) || self.pos.pt_bb(piece.piece_type()).has_sq(sq) {
            return Err(PositionBuilderError::PieceAlreadyOnSquare);
        }
        self.pos.put_bits(piece, sq);

        Ok(())
    }

    /// Sets the halfmove clock; above 140 it is refused.
    pub fn set_halfmove(&mut self, halfmove: u16) -> (r: Result<(), PositionBuilderError>)
        ensures
            halfmove > 140 ==> r == Err::<(), PositionBuilderError>(PositionBuilderError::HalfmoveTooHigh) && *final(self) == *old(self),
            halfmove <= 140 ==> r is Ok && final(self).halfmove_value() == halfmove,
            final(self).fullmove_value() == old(self).fullmove_value(),
            forall|c: Color| #[trigger] final(self).color_bits(c) == old(self).color_bits(c),
            forall|pt: PieceType| #[trigger] final(self).piece_bits(pt) == old(self).piece_bits(pt),
            forall|c: Color| #[trigger] final(self).king_given(c) == old(self).king_given(c),
    {
        if halfmove > 140 {
            return Err(PositionBuilderError::HalfmoveTooHigh);
        }

        let stm = self.pos.stm();
        let fullmove = self.pos.fullmove();
        self.pos.set_counters(stm, halfmove, fullmove);

        Ok(())
    }

    /// Sets the move number, at least 1.
    pub fn set_fullmove(&mut self, fullmove: u32)
        ensures
            final(self).fullmove_value() == if fullmove < 1 {
                1
            } else {
                fullmove
            },
            final(self).halfmove_value() == old(self).halfmove_value(),
            forall|c: Color| #[trigger] final(self).color_bits(c) == old(self).color_bits(c),
            forall|pt: PieceType| #[trigger] final(self).piece_bits(pt) == old(self).piece_bits(pt),
            forall|c: Color| #[trigger] final(self).king_given(c) == old(self).king_given(c),
    {
        let stm = self.pos.stm();
        let halfmove = self.pos.halfmove();
        let fullmove = if fullmove < 1 {
            1
        } else {
            fullmove
        };
        self.pos.set_counters(stm, halfmove, fullmove);
    }
}

/// Square `sq` holds a piece in a color's board exactly when it does in a
/// type's board, in at most one color's board and in at most one type's.
fn square_ok(pos: &Position, sq: Square) -> (r: bool)
    ensures
        r == pos.square_bits_ok(sq as int),
{
    let w = pos.color_bb(Color::White).has_sq(sq);
    let b = pos.color_bb(Color::Black).has_sq(sq);
    let p0 = pos.pt_bb(PieceType::Pawn).has_sq(sq);
    let p1 = pos.pt_bb(PieceType::Alfil).has_sq(sq);
    let p2 = pos.pt_bb(PieceType::Ferz).has_sq(sq);
    let p3 = pos.pt_bb(PieceType::Knight).has_sq(sq);
    let p4 = pos.pt_bb(PieceType::Rook).has_sq(sq);
    let p5 = pos.pt_bb(PieceType::King).has_sq(sq);
    let mut n: u8 = 0;
    if p0 {
        n = n + 1;
    }
    if p1 {
        n = n + 1;
    }
    if p2 {
        n = n + 1;
    }
    if p3 {
        n = n + 1;
    }
    if p4 {
        n = n + 1;
    }
    if p5 {
        n = n + 1;
    }
    let r = !(w && b) && (w || b) == (n >= 1) && n <= 1;
    proof {
        let s = sq as int;
        assert(forall|pt: PieceType| #[trigger] has_bit(pos.piece_bits(pt), s) ==> (pt == PieceType::Pawn && p0) || (pt == PieceType::Alfil && p1) || (pt == PieceType::Ferz && p2) || (pt == PieceType::Knight && p3) || (pt == PieceType::Rook && p4) || (pt == PieceType::King && p5));
        if p0 {
            assert(has_bit(pos.piece_bits(PieceType::Pawn), s));
        }
        if p1 {
            assert(has_bit(pos.piece_bits(PieceType::Alfil), s));
        }
        if p2 {
            assert(has_bit(pos.piece_bits(PieceType::Ferz), s));
        }
        if p3 {
            assert(has_bit(pos.piece_bits(PieceType::Knight), s));
        }
        if p4 {
            assert(has_bit(pos.piece_bits(PieceType::Rook), s));
        }
        if p5 {
            assert(has_bit(pos.piece_bits(PieceType::King), s));
        }
    }
    r
}

impl Default for PositionBuilder {
    /// A builder with no pieces placed, no king given, the halfmove clock at
    /// 0 and the move number at 1.
    fn default() -> (r: Self)
        ensures
            forall|c: Color| #[trigger] r.color_bits(c) == 0,
            forall|pt: PieceType| #[trigger] r.piece_bits(pt) == 0,
            forall|c: Color| !#[trigger] r.king_given(c),
            r.halfmove_value() == 0,
            r.fullmove_value() == 1,
    {
        Self { pos: Position::empty(), has_king: [false, false] }
    }
}

} // verus!
