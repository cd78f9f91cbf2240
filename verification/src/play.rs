//! Positions that play reaches: from the start position or a FEN record,
//! through legal moves and null moves.
use crate::attacks::piece_attack;
use crate::bitboard::{count_bits, has_bit, popcount_spec};
use crate::core_types::{file_of, rank_of, Color, Piece, PieceType};
use crate::fen::{fen_matches, fen_result, fen_text, ascii_words, count_occupied, fen_fields};
use crate::legality::exposes_king;
use crate::position::{FenError, Position};
use vstd::prelude::*;

verus! {

/// A position that play can reach: well formed, the side to move unable to
/// capture the other king, at most 32 pieces, and a move number of at least
/// 1. The start position and every position read from FEN are such, and
/// legal moves and null moves keep them so.
pub open spec fn playable(pos: Position) -> bool {
    &&& pos.wf()
    &&& !exposes_king(pos)
    &&& popcount_spec(pos.occupied_bits()) <= 32
    &&& pos.fullmove_value() >= 1
}

/// The squares below `n` of the two home ranks of each side are counted.
proof fn lemma_count_home(x: u64, n: int)
    requires
        0 <= n <= 64,
        forall|s: int| 0 <= s < 64 ==> #[trigger] has_bit(x, s) == (s < 16 || s >= 48),
    ensures
        count_bits(x, n) == (if n < 16 { n } else { 16 }) + (if n > 48 { n - 48 } else { 0 }),
    decreases n,
{
    if n > 0 {
        lemma_count_home(x, n - 1);
        assert(has_bit(x, n - 1) == (n - 1 < 16 || n - 1 >= 48));
    }
}

/// The start position is one that play reaches.
pub proof fn lemma_start_playable(pos: Position)
    requires
        pos.wf(),
        pos.color_bits(Color::White) == 0x000000000000FFFFu64,
        pos.color_bits(Color::Black) == 0xFFFF000000000000u64,
        pos.piece_bits(PieceType::Rook) == 0x8100000000000081u64,
        pos.piece_bits(PieceType::King) == 0x0800000000000008u64,
        pos.side() == Color::White,
        pos.fullmove_value() == 1,
    ensures
        playable(pos),
{
    crate::position::lemma_start_bits();
    crate::bitboard::lemma_bit_ops();
    let occ = pos.occupied_bits();
    assert forall|s: int| 0 <= s < 64 implies #[trigger] has_bit(occ, s) == (s < 16 || s >= 48) by {}
    lemma_count_home(occ, 64);
    let them = pos.them();
    assert(them == Color::Black);
    assert(pos.king_ok(Color::Black));
    assert(has_bit(pos.piece_bits(PieceType::King), 59) && has_bit(pos.color_bits(Color::Black), 59));
    assert(pos.holds_type(59, PieceType::King) && pos.holds_color(59, Color::Black));
    Piece::lemma_parts(pos.board()[59]->0, PieceType::King.spec_with_color(Color::Black));
    assert(pos.board()[59] == Some(PieceType::King.spec_with_color(Color::Black)));
    let k = pos.king_square(them).index();
    assert(k == 59);
    if exposes_king(pos) {
        let a = choose|a: int| #[trigger] pos.attacks_from(a, pos.side(), k, occ);
        assert(has_bit(pos.color_bits(Color::White), a));
        assert(a < 16);
        let p = pos.board()[a]->0;
        assert(rank_of(a) <= 1 && rank_of(59) == 7 && file_of(59) == 3);
        if p.spec_piece_type() == PieceType::Rook {
            assert(has_bit(pos.piece_bits(PieceType::Rook), a));
            assert(a == 0 || a == 7);
        }
        assert(piece_attack(p, a, 59, occ));
    }
}

/// A position read from a FEN record is one that play reaches.
pub proof fn lemma_read_playable(r: Result<Position, FenError>, parts: Seq<Seq<char>>)
    requires
        fen_matches(r, fen_result(parts)),
        r is Ok,
    ensures
        playable(r->Ok_0),
{
    let pos = r->Ok_0;
    let d = fen_fields(parts)->Ok_0;
    crate::roundtrip::lemma_occupied_count(pos);
    crate::roundtrip::lemma_king_attacked(pos);
    assert(count_occupied(d.0, 64) <= 32);
}

/// A legal move from a position play reaches never captures the other
/// king, so it may be made.
pub proof fn lemma_playable_move_allowed(pos: Position, m: u16)
    requires
        playable(pos),
        pos.legal_move(m),
    ensures
        !pos.captures_king(m),
{
    crate::legality::lemma_no_king_capture(pos, m);
}

/// A legal move from a position play reaches captures no king, and leads to
/// a position play reaches.
pub proof fn lemma_move_playable(pos: Position, m: u16, next: Position)
    requires
        playable(pos),
        pos.legal_move(m),
        crate::legality::follows(next, pos, m),
        next.fullmove_value() >= pos.fullmove_value(),
    ensures
        !pos.captures_king(m),
        playable(next),
{
    crate::legality::lemma_no_king_capture(pos, m);
    crate::roundtrip::lemma_move_keeps_readable(pos, m, next);
}

/// A null move from a position play reaches, out of check, leads to a
/// position play reaches.
pub proof fn lemma_null_playable(pos: Position, next: Position)
    requires
        playable(pos),
        pos.checker_bits() == 0,
        next.wf(),
        next.board() == pos.board(),
        next.side() == pos.them(),
        next.fullmove_value() >= pos.fullmove_value(),
    ensures
        playable(next),
{
    crate::legality::lemma_turn_exposure(pos, next);
    crate::legality::lemma_same_board(pos, next);
}

/// Written in FEN, a position that play reaches, with a halfmove clock of at
/// most 140, has six words and reads back as itself.
pub proof fn lemma_playable_fen(pos: Position, r: Result<Position, FenError>)
    requires
        playable(pos),
        pos.halfmove_value() <= 140,
        fen_matches(r, fen_result(ascii_words(fen_text(pos)))),
    ensures
        ascii_words(fen_text(pos)).len() == 6,
        r == Ok::<Position, FenError>(pos),
{
    crate::roundtrip::lemma_fen_fields(pos);
    crate::roundtrip::lemma_fen_reads_back(pos, r);
}

} // verus!
