//! How a game stands: won, lost or drawn for the side to move, or going on.
use crate::core_types::{Color, PieceType};
use crate::movegen::{generate_all, legal_set, move_list_len, new_move_list};
use crate::position::{DecisiveType, DrawType, GameOutcome, Position};
use vstd::prelude::*;

verus! {

/// Only the two kings are left on the board.
pub open spec fn only_kings(pos: Position) -> bool {
    &&& pos.piece_bits(PieceType::King) & pos.color_bits(Color::White) == pos.color_bits(Color::White)
    &&& pos.piece_bits(PieceType::King) & pos.color_bits(Color::Black) == pos.color_bits(Color::Black)
}

/// The outcome that does not need a mate: after seventy moves without a
/// capture or a pawn move, a loss when no legal move is left and a draw
/// otherwise; a draw when only the kings are left; else none.
pub open spec fn spec_non_mate_outcome(pos: Position) -> Option<GameOutcome> {
    if pos.halfmove_value() >= 140 {
        if legal_set(pos).len() == 0 {
            Some(GameOutcome::Loss(DecisiveType::Mate))
        } else {
            Some(GameOutcome::Draw(DrawType::SeventyMoveRule))
        }
    } else if only_kings(pos) {
        Some(GameOutcome::Draw(DrawType::InsufficientMaterial))
    } else {
        None
    }
}

/// The outcome of the game for the side to move: one that needs no mate,
/// else a loss when no legal move is left, else none.
pub open spec fn spec_outcome(pos: Position) -> Option<GameOutcome> {
    match spec_non_mate_outcome(pos) {
        Some(o) => Some(o),
        None => if legal_set(pos).len() == 0 {
            Some(GameOutcome::Loss(DecisiveType::Mate))
        } else {
            None
        },
    }
}

/// What decides the outcome: under seventy moves without a capture or a
/// pawn move, a draw for want of material exactly when every piece on the
/// board is a king; from then on a loss when no legal move is left and a
/// draw otherwise. With no legal move left the side to move has lost,
/// whether in check or not.
pub proof fn lemma_outcome_rules(pos: Position)
    requires
        pos.wf(),
    ensures
        pos.halfmove_value() < 140 ==> (spec_non_mate_outcome(pos) == Some(GameOutcome::Draw(DrawType::InsufficientMaterial)))
            == (forall|s: int| 0 <= s < 64 && #[trigger] pos.board()[s] is Some ==> pos.board()[s]->0.spec_piece_type() == PieceType::King),
        pos.halfmove_value() < 140 ==> spec_non_mate_outcome(pos) is None || spec_non_mate_outcome(pos) == Some(GameOutcome::Draw(DrawType::InsufficientMaterial)),
        pos.halfmove_value() >= 140 ==> (spec_non_mate_outcome(pos) == Some(GameOutcome::Loss(DecisiveType::Mate))) == (legal_set(pos).len() == 0),
        pos.halfmove_value() >= 140 ==> (spec_non_mate_outcome(pos) == Some(GameOutcome::Draw(DrawType::SeventyMoveRule))) == (legal_set(pos).len() != 0),
        spec_non_mate_outcome(pos) is Some ==> spec_outcome(pos) == spec_non_mate_outcome(pos),
        legal_set(pos).len() == 0 && spec_non_mate_outcome(pos) is None ==> spec_outcome(pos) == Some(GameOutcome::Loss(DecisiveType::Mate)),
        spec_outcome(pos) is None <==> (spec_non_mate_outcome(pos) is None && legal_set(pos).len() != 0),
{
    pos.lemma_only_kings();
}

impl Position {
    /// The outcome that does not need a mate. A mate on the seventieth move
    /// is reported as one.
    pub fn non_mate_outcome(&self) -> (r: Option<GameOutcome>)
        requires
            self.wf(),
            self.halfmove_value() >= 140 ==> legal_set(*self).len() <= 128,
        ensures
            r == spec_non_mate_outcome(*self),
            self.halfmove_value() < 140 ==> (r == Some(GameOutcome::Draw(DrawType::InsufficientMaterial))) == (forall|s: int| 0 <= s < 64 && #[trigger] self.board()[s] is Some ==> self.board()[s]->0.spec_piece_type() == PieceType::King),
            self.halfmove_value() >= 140 ==> (r == Some(GameOutcome::Loss(DecisiveType::Mate))) == (legal_set(*self).len() == 0),
            self.halfmove_value() >= 140 ==> (r == Some(GameOutcome::Draw(DrawType::SeventyMoveRule))) == (legal_set(*self).len() != 0),
    {
        proof {
            lemma_outcome_rules(*self);
        }
        if self.halfmove() >= 140 {
            let mut moves = new_move_list();
            generate_all(&mut moves, self);

            return if move_list_len(&moves) == 0 {
                Some(GameOutcome::Loss(DecisiveType::Mate))
            } else {
                Some(GameOutcome::Draw(DrawType::SeventyMoveRule))
            };
        }

        if self.is_insufficient_material() {
            return Some(GameOutcome::Draw(DrawType::InsufficientMaterial));
        }

        if self.has_bare_king(self.stm()) {
            return Some(GameOutcome::Loss(DecisiveType::BareKing));
        }

        if self.has_bare_king(self.stm().flip()) {
            return Some(GameOutcome::Win(DecisiveType::BareKing));
        }

        None
    }

    /// The outcome of the game for the side to move, if it is over.
    pub fn outcome(&self) -> (r: Option<GameOutcome>)
        requires
            self.wf(),
            self.halfmove_value() >= 140 || spec_non_mate_outcome(*self) is None ==> legal_set(*self).len() <= 128,
        ensures
            r == spec_outcome(*self),
            self.halfmove_value() < 140 ==> (r == Some(GameOutcome::Draw(DrawType::InsufficientMaterial))) == (forall|s: int| 0 <= s < 64 && #[trigger] self.board()[s] is Some ==> self.board()[s]->0.spec_piece_type() == PieceType::King),
            legal_set(*self).len() == 0 && !(forall|s: int| 0 <= s < 64 && #[trigger] self.board()[s] is Some ==> self.board()[s]->0.spec_piece_type() == PieceType::King) ==> r == Some(GameOutcome::Loss(DecisiveType::Mate)),
            r is None ==> self.halfmove_value() < 140 && legal_set(*self).len() != 0 && !(forall|s: int| 0 <= s < 64 && #[trigger] self.board()[s] is Some ==> self.board()[s]->0.spec_piece_type() == PieceType::King),
    {
        proof {
            lemma_outcome_rules(*self);
        }
        if let Some(outcome) = self.non_mate_outcome() {
            return Some(outcome);
        }

        let mut moves = new_move_list();
        generate_all(&mut moves, self);

        if move_list_len(&moves) == 0 {
            return Some(GameOutcome::Loss(DecisiveType::Mate));
        }

        None
    }
}

} // verus!
