//! A shatranj position: the board, whose turn it is, the move counters, the
//! Zobrist key, and the checks, pins and threats that the side to move faces.
use crate::attacks::{
    alfil_attack, alfil_attacks, ferz_attack, ferz_attacks, king_attack, king_attacks,
    knight_attack, knight_attacks, pawn_attack, pawn_attacks, pawn_attacks_setwise, pawns_attack,
    piece_attack, rook_attack, rook_attacks, rook_line,
};
use crate::bitboard::{
    has_bit, lemma_bit_ops, lemma_bits_ext, lemma_empty_iff, lemma_empty_witness, lemma_masks, lemma_popcount_one, only_bit_below,
    popcount_spec, single, Bitboard,
};
use crate::core_types::{file_of, rank_of, relative_rank, spec_relative_rank, Color, Piece, PieceType, Square, RANK_8};
use crate::keys::{psq_key, spec_psq_key, spec_stm_key, stm_key};
use crate::rays::{
    between, lemma_between_symmetric, lemma_rook_attack_between, lemma_rook_attack_symmetric,
    past, ray_between, ray_past,
};
use crate::shatranjmove::{packed_from, packed_promo, packed_to, Move};
use vstd::std_specs::bits::u64_trailing_zeros;
use vstd::prelude::*;

verus! {

#[derive(Copy, Clone, Eq, PartialEq, Debug, Structural)]
pub enum FenError {
    TooFewParts,
    TooManyParts,
    TooFewRanks,
    TooManyRanks,
    TooFewFiles(usize),
    TooManyFiles(usize),
    InvalidPiece(char),
    MissingWhiteKing,
    MultipleWhiteKings,
    MissingBlackKing,
    MultipleBlackKings,
    TooManyPieces,
    InvalidStm,
    InvalidHalfmove,
    HalfmoveTooHigh,
    InvalidFullmove,
    OpponentInCheck,
}

#[derive(Copy, Clone, Eq, PartialEq, Debug, Structural)]
pub enum DecisiveType {
    Mate,
    BareKing,
}

/// Threefold repetition is not detected.
#[derive(Copy, Clone, Eq, PartialEq, Debug, Structural)]
pub enum DrawType {
    SeventyMoveRule,
    InsufficientMaterial,
}

#[derive(Copy, Clone, Eq, PartialEq, Debug, Structural)]
pub enum GameOutcome {
    Win(DecisiveType),
    Loss(DecisiveType),
    Draw(DrawType),
}

/// The key part of one square: the key of the piece on it, or nothing.
pub open spec fn square_key(board: Seq<Option<Piece>>, s: int) -> u64 {
    match board[s] {
        Some(p) => spec_psq_key(p, Square::from_int(s)),
        None => 0,
    }
}

/// The keys of the pieces on the squares below `n`, combined with xor.
pub open spec fn board_key(board: Seq<Option<Piece>>, n: int) -> u64
    decreases n,
{
    if n <= 0 {
        0
    } else {
        board_key(board, n - 1) ^ square_key(board, n - 1)
    }
}

/// The Zobrist key of a board with `side` to move.
pub open spec fn zobrist(board: Seq<Option<Piece>>, side: Color) -> u64 {
    board_key(board, 64) ^ (if side == Color::Black {
        spec_stm_key()
    } else {
        0u64
    })
}

/// Xor with zero changes nothing.
pub proof fn lemma_xor_zero()
    ensures
        forall|a: u64| #[trigger] (a ^ 0u64) == a,
        forall|a: u64| #[trigger] (0u64 ^ a) == a,
{
    assert((forall|a: u64| #[trigger] (a ^ 0u64) == a) && (forall|a: u64| #[trigger] (0u64 ^ a) == a)) by (bit_vector);
}

/// A board with no pieces has the key zero.
pub proof fn lemma_board_key_empty(board: Seq<Option<Piece>>, n: int)
    requires
        n <= board.len(),
        forall|i: int| 0 <= i < board.len() ==> #[trigger] board[i] == None::<Piece>,
    ensures
        board_key(board, n) == 0,
    decreases n,
{
    lemma_xor_zero();
    if n > 0 {
        lemma_board_key_empty(board, n - 1);
    }
}

/// Changing one square changes the key by the old and the new part of that
/// square.
pub proof fn lemma_board_key_update(board: Seq<Option<Piece>>, j: int, v: Option<Piece>, n: int)
    requires
        0 <= j < board.len(),
        n <= board.len(),
    ensures
        board_key(board.update(j, v), n) == if 0 <= j < n {
            board_key(board, n) ^ (square_key(board, j) ^ square_key(board.update(j, v), j))
        } else {
            board_key(board, n)
        },
    decreases n,
{
    if n > 0 {
        lemma_board_key_update(board, j, v, n - 1);
        let b2 = board.update(j, v);
        let x = board_key(board, n - 1);
        let y = square_key(board, n - 1);
        let x2 = board_key(b2, n - 1);
        let y2 = square_key(b2, n - 1);
        let d = square_key(board, j) ^ square_key(b2, j);
        if j == n - 1 {
            assert(x2 == x);
            assert(x2 ^ y2 == (x ^ y) ^ (y ^ y2)) by (bit_vector)
                requires
                    x2 == x,
            ;
        } else if 0 <= j < n - 1 {
            assert(y2 == y);
            assert(x2 ^ y2 == (x ^ y) ^ d) by (bit_vector)
                requires
                    x2 == x ^ d,
                    y2 == y,
            ;
        } else {
            assert(y2 == y);
        }
    }
}

/// A piece on `s`, one of `pieces` already walked (not in `rem`), attacks `t`.
pub open spec fn walked_attack(pieces: u64, rem: u64, piece: Piece, s: int, t: int, occ: u64) -> bool {
    has_bit(pieces, s) && !has_bit(rem, s) && piece_attack(piece, s, t, occ)
}

/// `threats` with each square that a `piece` standing on a square of `pieces`
/// attacks added.
fn add_attacks(threats: Bitboard, pieces: Bitboard, piece: Piece, occ: Bitboard) -> (r: Bitboard)
    ensures
        forall|t: int| #[trigger] has_bit(r@, t) == (has_bit(threats@, t) || exists|s: int| #[trigger] walked_attack(pieces@, 0, piece, s, t, occ@)),
{
    let mut acc = threats;
    let mut it = pieces.into_iter();
    proof {
        lemma_bit_ops();
    }
    loop
        invariant
            forall|s: int| #[trigger] has_bit(it.remaining()@, s) ==> has_bit(pieces@, s),
            forall|t: int| #[trigger] has_bit(acc@, t) == (has_bit(threats@, t) || exists|s: int| #[trigger] walked_attack(pieces@, it.remaining()@, piece, s, t, occ@)),
        decreases it.remaining()@,
    {
        let ghost rem0 = it.remaining()@;
        match it.next() {
            None => {
                proof {
                    assert forall|t: int| #[trigger] has_bit(acc@, t) == (has_bit(threats@, t) || exists|s: int| #[trigger] walked_attack(pieces@, 0, piece, s, t, occ@)) by {
                        if exists|s: int| #[trigger] walked_attack(pieces@, 0, piece, s, t, occ@) {
                            let s = choose|s: int| #[trigger] walked_attack(pieces@, 0, piece, s, t, occ@);
                            assert(walked_attack(pieces@, rem0, piece, s, t, occ@));
                        }
                        if exists|s: int| #[trigger] walked_attack(pieces@, rem0, piece, s, t, occ@) {
                            let s = choose|s: int| #[trigger] walked_attack(pieces@, rem0, piece, s, t, occ@);
                            assert(walked_attack(pieces@, 0, piece, s, t, occ@));
                        }
                    }
                }
                return acc;
            },
            Some(sq) => {
                let a = crate::attacks::attacks(piece, sq, occ);
                let ghost acc0 = acc@;
                assert(forall|t: int| #[trigger] has_bit(acc0, t) == (has_bit(threats@, t) || exists|s: int| #[trigger] walked_attack(pieces@, rem0, piece, s, t, occ@)));
                acc = acc.or(a);
                proof {
                    lemma_bit_ops();
                    let rem1 = it.remaining()@;
                    assert forall|t: int| #[trigger] has_bit(acc@, t) == (has_bit(threats@, t) || exists|s: int| #[trigger] walked_attack(pieces@, rem1, piece, s, t, occ@)) by {
                        assert(has_bit(acc@, t) == (has_bit(acc0, t) || has_bit(a@, t)));
                        if exists|s: int| #[trigger] walked_attack(pieces@, rem1, piece, s, t, occ@) {
                            let s = choose|s: int| #[trigger] walked_attack(pieces@, rem1, piece, s, t, occ@);
                            if s != sq as int {
                                assert(walked_attack(pieces@, rem0, piece, s, t, occ@));
                            } else {
                                assert(has_bit(a@, t));
                            }
                        }
                        if exists|s: int| #[trigger] walked_attack(pieces@, rem0, piece, s, t, occ@) {
                            let s = choose|s: int| #[trigger] walked_attack(pieces@, rem0, piece, s, t, occ@);
                            assert(walked_attack(pieces@, rem1, piece, s, t, occ@));
                        }
                        if has_bit(a@, t) {
                            assert(walked_attack(pieces@, rem1, piece, sq as int, t, occ@));
                        }
                    }
                }
            },
        }
    }
}

/// Each piece attacks a square exactly when a piece of the same type, of the
/// other color for pawns, attacks back from that square.
pub proof fn lemma_attack_symmetric(p: Piece, s: int, t: int, occ: u64)
    requires
        0 <= s < 64,
        0 <= t < 64,
    ensures
        piece_attack(p, s, t, occ) == match p.spec_piece_type() {
            PieceType::Pawn => pawn_attack(p.spec_color().opposite(), t, s),
            PieceType::Alfil => alfil_attack(t, s),
            PieceType::Ferz => ferz_attack(t, s),
            PieceType::Knight => knight_attack(t, s),
            PieceType::Rook => rook_attack(t, s, occ),
            PieceType::King => king_attack(t, s),
        },
{
    lemma_rook_attack_symmetric(s, t, occ);
}

/// The squares of the initial position's bitboards.
pub proof fn lemma_start_bits()
    ensures
        forall|s: int| #[trigger] has_bit(0x000000000000FFFFu64, s) == (0 <= s < 64 && (s < 16)),
        forall|s: int| #[trigger] has_bit(0xFFFF000000000000u64, s) == (0 <= s < 64 && (s >= 48)),
        forall|s: int| #[trigger] has_bit(0x00FF00000000FF00u64, s) == (0 <= s < 64 && ((8 <= s < 16) || (48 <= s < 56))),
        forall|s: int| #[trigger] has_bit(0x2400000000000024u64, s) == (0 <= s < 64 && (s == 2 || s == 5 || s == 58 || s == 61)),
        forall|s: int| #[trigger] has_bit(0x1000000000000010u64, s) == (0 <= s < 64 && (s == 4 || s == 60)),
        forall|s: int| #[trigger] has_bit(0x4200000000000042u64, s) == (0 <= s < 64 && (s == 1 || s == 6 || s == 57 || s == 62)),
        forall|s: int| #[trigger] has_bit(0x8100000000000081u64, s) == (0 <= s < 64 && (s == 0 || s == 7 || s == 56 || s == 63)),
        forall|s: int| #[trigger] has_bit(0x0800000000000008u64, s) == (0 <= s < 64 && (s == 3 || s == 59)),
{
    assert((forall|j: u64| #![trigger 0x000000000000FFFFu64 >> j] j < 64 ==> ((((0x000000000000FFFFu64 >> j) & 1u64) == 1u64) == (j < 16))) && (forall|j: u64| #![trigger 0xFFFF000000000000u64 >> j] j < 64 ==> ((((0xFFFF000000000000u64 >> j) & 1u64) == 1u64) == (j >= 48))) && (forall|j: u64| #![trigger 0x00FF00000000FF00u64 >> j] j < 64 ==> ((((0x00FF00000000FF00u64 >> j) & 1u64) == 1u64) == ((8 <= j && j < 16) || (48 <= j && j < 56)))) && (forall|j: u64| #![trigger 0x2400000000000024u64 >> j] j < 64 ==> ((((0x2400000000000024u64 >> j) & 1u64) == 1u64) == (j == 2 || j == 5 || j == 58 || j == 61))) && (forall|j: u64| #![trigger 0x1000000000000010u64 >> j] j < 64 ==> ((((0x1000000000000010u64 >> j) & 1u64) == 1u64) == (j == 4 || j == 60))) && (forall|j: u64| #![trigger 0x4200000000000042u64 >> j] j < 64 ==> ((((0x4200000000000042u64 >> j) & 1u64) == 1u64) == (j == 1 || j == 6 || j == 57 || j == 62))) && (forall|j: u64| #![trigger 0x8100000000000081u64 >> j] j < 64 ==> ((((0x8100000000000081u64 >> j) & 1u64) == 1u64) == (j == 0 || j == 7 || j == 56 || j == 63))) && (forall|j: u64| #![trigger 0x0800000000000008u64 >> j] j < 64 ==> ((((0x0800000000000008u64 >> j) & 1u64) == 1u64) == (j == 3 || j == 59)))) by (bit_vector);
    assert forall|s: int| #[trigger] has_bit(0x000000000000FFFFu64, s) == (0 <= s < 64 && (s < 16)) by {
        if 0 <= s < 64 {
            assert(((0x000000000000FFFFu64 >> (s as u64)) & 1u64 == 1u64) == ((s as u64) < 16));
        }
    }
    assert forall|s: int| #[trigger] has_bit(0xFFFF000000000000u64, s) == (0 <= s < 64 && (s >= 48)) by {
        if 0 <= s < 64 {
            assert(((0xFFFF000000000000u64 >> (s as u64)) & 1u64 == 1u64) == ((s as u64) >= 48));
        }
    }
    assert forall|s: int| #[trigger] has_bit(0x00FF00000000FF00u64, s) == (0 <= s < 64 && ((8 <= s < 16) || (48 <= s < 56))) by {
        if 0 <= s < 64 {
            assert(((0x00FF00000000FF00u64 >> (s as u64)) & 1u64 == 1u64) == ((8 <= (s as u64) && (s as u64) < 16) || (48 <= (s as u64) && (s as u64) < 56)));
        }
    }
    assert forall|s: int| #[trigger] has_bit(0x2400000000000024u64, s) == (0 <= s < 64 && (s == 2 || s == 5 || s == 58 || s == 61)) by {
        if 0 <= s < 64 {
            assert(((0x2400000000000024u64 >> (s as u64)) & 1u64 == 1u64) == ((s as u64) == 2 || (s as u64) == 5 || (s as u64) == 58 || (s as u64) == 61));
        }
    }
    assert forall|s: int| #[trigger] has_bit(0x1000000000000010u64, s) == (0 <= s < 64 && (s == 4 || s == 60)) by {
        if 0 <= s < 64 {
            assert(((0x1000000000000010u64 >> (s as u64)) & 1u64 == 1u64) == ((s as u64) == 4 || (s as u64) == 60));
        }
    }
    assert forall|s: int| #[trigger] has_bit(0x4200000000000042u64, s) == (0 <= s < 64 && (s == 1 || s == 6 || s == 57 || s == 62)) by {
        if 0 <= s < 64 {
            assert(((0x4200000000000042u64 >> (s as u64)) & 1u64 == 1u64) == ((s as u64) == 1 || (s as u64) == 6 || (s as u64) == 57 || (s as u64) == 62));
        }
    }
    assert forall|s: int| #[trigger] has_bit(0x8100000000000081u64, s) == (0 <= s < 64 && (s == 0 || s == 7 || s == 56 || s == 63)) by {
        if 0 <= s < 64 {
            assert(((0x8100000000000081u64 >> (s as u64)) & 1u64 == 1u64) == ((s as u64) == 0 || (s as u64) == 7 || (s as u64) == 56 || (s as u64) == 63));
        }
    }
    assert forall|s: int| #[trigger] has_bit(0x0800000000000008u64, s) == (0 <= s < 64 && (s == 3 || s == 59)) by {
        if 0 <= s < 64 {
            assert(((0x0800000000000008u64 >> (s as u64)) & 1u64 == 1u64) == ((s as u64) == 3 || (s as u64) == 59));
        }
    }
}

#[derive(Copy, Clone, Eq, PartialEq, Debug)]
pub struct Position {
    mailbox: [Option<Piece>; 64],
    colors: [Bitboard; 2],
    pieces: [Bitboard; 6],
    kings: [Square; 2],
    stm: Color,
    checkers: Bitboard,
    pinned: Bitboard,
    threats: Bitboard,
    key: u64,
    halfmove: u16,
    fullmove: u32,
}

impl Position {
    /// The piece on each square, or nothing.
    pub closed spec fn board(self) -> Seq<Option<Piece>> {
        self.mailbox@
    }

    /// The squares of `color`'s pieces.
    pub closed spec fn color_bits(self, color: Color) -> u64 {
        self.colors@[color as int]@
    }

    /// The squares of the pieces of type `pt`, of either color.
    pub closed spec fn piece_bits(self, pt: PieceType) -> u64 {
        self.pieces@[pt as int]@
    }

    /// Where `color`'s king stands.
    pub closed spec fn king_square(self, color: Color) -> Square {
        self.kings@[color as int]
    }

    /// The side to move.
    pub closed spec fn side(self) -> Color {
        self.stm
    }

    pub closed spec fn checker_bits(self) -> u64 {
        self.checkers@
    }

    pub closed spec fn pinned_bits(self) -> u64 {
        self.pinned@
    }

    pub closed spec fn threat_bits(self) -> u64 {
        self.threats@
    }

    pub closed spec fn key_value(self) -> u64 {
        self.key
    }

    pub closed spec fn halfmove_value(self) -> u16 {
        self.halfmove
    }

    pub closed spec fn fullmove_value(self) -> u32 {
        self.fullmove
    }

    /// The squares of all pieces.
    pub open spec fn occupied_bits(self) -> u64 {
        self.color_bits(Color::White) | self.color_bits(Color::Black)
    }

    /// The side not to move.
    pub open spec fn them(self) -> Color {
        self.side().opposite()
    }

    /// Where the side to move has its king.
    pub open spec fn our_king(self) -> int {
        self.king_square(self.side()) as int
    }

    /// Square `s` holds a piece of `color`.
    pub open spec fn holds_color(self, s: int, color: Color) -> bool {
        0 <= s < 64 && self.board()[s] is Some && self.board()[s]->0.spec_color() == color
    }

    /// Square `s` holds a piece of type `pt`.
    pub open spec fn holds_type(self, s: int, pt: PieceType) -> bool {
        0 <= s < 64 && self.board()[s] is Some && self.board()[s]->0.spec_piece_type() == pt
    }

    /// The piece on `s`, of `color`, attacks `t` when the squares of `occ`
    /// block.
    pub open spec fn attacks_from(self, s: int, color: Color, t: int, occ: u64) -> bool {
        self.holds_color(s, color) && piece_attack(self.board()[s]->0, s, t, occ)
    }

    /// The bitboards and the board agree: a square is in a color's board and
    /// a type's board exactly when a piece of that color and type stands on
    /// it.
    pub open spec fn board_wf(self) -> bool {
        &&& self.board().len() == 64
        &&& forall|s: int, c: Color| #[trigger]
            has_bit(self.color_bits(c), s) == self.holds_color(s, c)
        &&& forall|s: int, pt: PieceType| #[trigger]
            has_bit(self.piece_bits(pt), s) == self.holds_type(s, pt)
    }

    /// `color` has one king, and `king_square` says where.
    pub open spec fn king_ok(self, color: Color) -> bool {
        &&& self.board()[self.king_square(color) as int] == Some(PieceType::King.spec_with_color(color))
        &&& forall|s: int|
            #![trigger self.board()[s]]
            0 <= s < 64 && self.board()[s] == Some(PieceType::King.spec_with_color(color)) ==> s
                == self.king_square(color) as int
    }

    /// Each side has one king, and `king_square` says where.
    pub open spec fn kings_wf(self) -> bool {
        self.king_ok(Color::White) && self.king_ok(Color::Black)
    }

    /// The piece on `t` gives check: it belongs to the side not to move and
    /// attacks the king of the side to move.
    pub open spec fn checker_at(self, t: int) -> bool {
        self.attacks_from(t, self.them(), self.our_king(), self.occupied_bits())
    }

    /// Of the pieces strictly between a rook on `r` and the king of the side
    /// to move, the only one stands on `q`.
    pub open spec fn pins_at(self, r: int, q: int) -> bool {
        &&& self.board()[r] == Some(PieceType::Rook.spec_with_color(self.them()))
        &&& 0 <= r < 64
        &&& between(r, self.our_king(), q)
        &&& forall|y: int|
            #![trigger has_bit(self.occupied_bits(), y)]
            between(r, self.our_king(), y) && has_bit(self.occupied_bits(), y) ==> y == q
    }

    /// The piece on `q` belongs to the side to move and is pinned to its
    /// king by a rook.
    pub open spec fn pinned_at(self, q: int) -> bool {
        self.holds_color(q, self.side()) && exists|r: int| #[trigger] self.pins_at(r, q)
    }

    /// A piece of the side not to move attacks `t`, with the king of the
    /// side to move taken off the board.
    pub open spec fn threat_at(self, t: int) -> bool {
        exists|s: int|
            #[trigger] self.attacks_from(
                s,
                self.them(),
                t,
                self.occupied_bits() ^ single(self.our_king()),
            )
    }

    /// The checks, pins and threats held are those of the board.
    #[verifier::opaque]
    pub open spec fn attack_info_wf(self) -> bool {
        &&& forall|t: int| #[trigger] has_bit(self.checker_bits(), t) == self.checker_at(t)
        &&& forall|t: int| #[trigger] has_bit(self.pinned_bits(), t) == self.pinned_at(t)
        &&& forall|t: int| #[trigger] has_bit(self.threat_bits(), t) == self.threat_at(t)
    }

    /// A well-formed position: the board and its bitboards agree, each side
    /// has one king, the key is the board's Zobrist key, and the checks, pins
    /// and threats are those of the board.
    pub open spec fn wf(self) -> bool {
        &&& self.board_wf()
        &&& self.kings_wf()
        &&& self.key_value() == zobrist(self.board(), self.side())
        &&& self.attack_info_wf()
    }

    pub fn stm(&self) -> (r: Color)
        ensures
            r == self.side(),
    {
        self.stm
    }

    pub fn piece_on(&self, sq: Square) -> (r: Option<Piece>)
        ensures
            r == self.board()[sq as int],
    {
        self.mailbox[sq.idx()]
    }

    pub fn pt_bb(&self, pt: PieceType) -> (r: Bitboard)
        ensures
            r@ == self.piece_bits(pt),
    {
        self.pieces[pt.idx()]
    }

    pub fn color_bb(&self, color: Color) -> (r: Bitboard)
        ensures
            r@ == self.color_bits(color),
    {
        self.colors[color.idx()]
    }

    pub fn piece_bb(&self, piece: Piece) -> (r: Bitboard)
        ensures
            r@ == self.piece_bits(piece.spec_piece_type()) & self.color_bits(piece.spec_color()),
            self.board_wf() ==> forall|s: int| #[trigger] has_bit(r@, s) == (0 <= s < 64 && self.board()[s] == Some(piece)),
    {
        let r = self.pieces[piece.piece_type().idx()].and(self.colors[piece.color().idx()]);
        proof {
            lemma_bit_ops();
            if self.board_wf() {
                assert forall|s: int| #[trigger] has_bit(r@, s) == (0 <= s < 64 && self.board()[s] == Some(piece)) by {
                    if 0 <= s < 64 && self.board()[s] is Some {
                        Piece::lemma_parts(self.board()[s]->0, piece);
                    }
                    assert(has_bit(self.color_bits(piece.spec_color()), s) == self.holds_color(s, piece.spec_color()));
                    assert(has_bit(self.piece_bits(piece.spec_piece_type()), s) == self.holds_type(s, piece.spec_piece_type()));
                }
            }
        }
        r
    }

    pub fn occ(&self) -> (r: Bitboard)
        ensures
            r@ == self.occupied_bits(),
            self.board_wf() ==> forall|s: int| #[trigger] has_bit(r@, s) == (0 <= s < 64 && self.board()[s] is Some),
            self.wf() ==> r@ == self.piece_bits(PieceType::Pawn) | self.piece_bits(PieceType::Alfil)
                | self.piece_bits(PieceType::Ferz) | self.piece_bits(PieceType::Knight)
                | self.piece_bits(PieceType::Rook) | self.piece_bits(PieceType::King),
            self.wf() ==> forall|a: PieceType, b: PieceType| a != b ==> #[trigger] self.piece_bits(a) & #[trigger] self.piece_bits(b) == 0,
            crate::play::playable(*self) ==> crate::bitboard::popcount_spec(r@) <= 32,
    {
        let r = self.colors[0].or(self.colors[1]);
        proof {
            if self.wf() {
                self.lemma_occupied_types();
            }
            lemma_bit_ops();
            assert(r@ == self.occupied_bits());
            if self.board_wf() {
                assert forall|s: int| #[trigger] has_bit(r@, s) == (0 <= s < 64 && self.board()[s] is Some) by {
                    assert(has_bit(self.color_bits(Color::White), s) == self.holds_color(s, Color::White));
                    assert(has_bit(self.color_bits(Color::Black), s) == self.holds_color(s, Color::Black));
                }
            }
        }
        r
    }

    pub fn king_sq(&self, color: Color) -> (r: Square)
        ensures
            r == self.king_square(color),
    {
        self.kings[color.idx()]
    }

    pub fn in_check(&self) -> (r: bool)
        ensures
            r == (self.checker_bits() != 0),
    {
        !self.checkers.is_empty()
    }

    pub fn checkers(&self) -> (r: Bitboard)
        ensures
            r@ == self.checker_bits(),
    {
        self.checkers
    }

    pub fn pinned(&self) -> (r: Bitboard)
        ensures
            r@ == self.pinned_bits(),
    {
        self.pinned
    }

    pub fn threats(&self) -> (r: Bitboard)
        ensures
            r@ == self.threat_bits(),
    {
        self.threats
    }

    pub fn key(&self) -> (r: u64)
        ensures
            r == self.key_value(),
    {
        self.key
    }

    pub fn halfmove(&self) -> (r: u16)
        ensures
            r == self.halfmove_value(),
    {
        self.halfmove
    }

    pub fn fullmove(&self) -> (r: u32)
        ensures
            r == self.fullmove_value(),
    {
        self.fullmove
    }
    /// The pieces of `attacker`, other than rooks, that attack `sq`.
    pub fn non_slider_attackers_to(&self, sq: Square, attacker: Color) -> (r: Bitboard)
        ensures
            self.board_wf() ==> forall|t: int| #[trigger] has_bit(r@, t) == (self.attacks_from(t, attacker, sq as int, self.occupied_bits()) && !self.holds_type(t, PieceType::Rook)),
    {
        let mut attackers = Bitboard::from_raw(0);

        let pawns = self.piece_bb(PieceType::Pawn.with_color(attacker));
        attackers = attackers.or(pawns.and(pawn_attacks(sq, attacker.flip())));

        let alfils = self.piece_bb(PieceType::Alfil.with_color(attacker));
        attackers = attackers.or(alfils.and(alfil_attacks(sq)));

        let ferzes = self.piece_bb(PieceType::Ferz.with_color(attacker));
        attackers = attackers.or(ferzes.and(ferz_attacks(sq)));

        let knights = self.piece_bb(PieceType::Knight.with_color(attacker));
        attackers = attackers.or(knights.and(knight_attacks(sq)));

        let kings = self.piece_bb(PieceType::King.with_color(attacker));
        attackers = attackers.or(kings.and(king_attacks(sq)));

        proof {
            lemma_bit_ops();
            if self.board_wf() {
                assert forall|t: int| #[trigger] has_bit(attackers@, t) == (self.attacks_from(t, attacker, sq as int, self.occupied_bits()) && !self.holds_type(t, PieceType::Rook)) by {
                    if 0 <= t < 64 && self.board()[t] is Some {
                        let p = self.board()[t]->0;
                        lemma_attack_symmetric(p, t, sq as int, self.occupied_bits());
                        Piece::lemma_parts(p, p.spec_piece_type().spec_with_color(attacker));
                    }
                }
            }
        }
        attackers
    }

    /// All pieces of `attacker` that attack `sq`.
    pub fn all_attackers_to(&self, sq: Square, attacker: Color) -> (r: Bitboard)
        ensures
            self.board_wf() ==> forall|t: int| #[trigger] has_bit(r@, t) == self.attacks_from(t, attacker, sq as int, self.occupied_bits()),
    {
        let mut attackers = self.non_slider_attackers_to(sq, attacker);

        let rooks = self.piece_bb(PieceType::Rook.with_color(attacker));
        attackers = attackers.or(rooks.and(rook_attacks(sq, self.occ())));

        proof {
            lemma_bit_ops();
            if self.board_wf() {
                assert forall|t: int| #[trigger] has_bit(attackers@, t) == self.attacks_from(t, attacker, sq as int, self.occupied_bits()) by {
                    if 0 <= t < 64 && self.board()[t] is Some {
                        let p = self.board()[t]->0;
                        lemma_attack_symmetric(p, t, sq as int, self.occupied_bits());
                        Piece::lemma_parts(p, p.spec_piece_type().spec_with_color(attacker));
                    }
                }
            }
        }
        attackers
    }

    /// Whether a piece of `attacker` attacks `sq`.
    pub fn is_attacked(&self, sq: Square, attacker: Color) -> (r: bool)
        ensures
            self.board_wf() ==> r == exists|t: int| #[trigger] self.attacks_from(t, attacker, sq.index(), self.occupied_bits()),
    {
        proof {
            lemma_bit_ops();
        }
        let pawns = self.piece_bb(PieceType::Pawn.with_color(attacker));
        let a = pawn_attacks(sq, attacker.flip());
        if a.intersects(pawns) {
            proof {
                if self.board_wf() {
                    let t = choose|t: int| #[trigger] has_bit(a@, t) && has_bit(pawns@, t);
                    lemma_attack_symmetric(self.board()[t]->0, t, sq as int, self.occupied_bits());
                    assert(self.attacks_from(t, attacker, sq.index(), self.occupied_bits()));
                }
            }
            return true;
        }
        let alfils = self.piece_bb(PieceType::Alfil.with_color(attacker));
        let b = alfil_attacks(sq);
        if b.intersects(alfils) {
            proof {
                if self.board_wf() {
                    let t = choose|t: int| #[trigger] has_bit(b@, t) && has_bit(alfils@, t);
                    lemma_attack_symmetric(self.board()[t]->0, t, sq as int, self.occupied_bits());
                    assert(self.attacks_from(t, attacker, sq.index(), self.occupied_bits()));
                }
            }
            return true;
        }
        let ferzes = self.piece_bb(PieceType::Ferz.with_color(attacker));
        let c = ferz_attacks(sq);
        if c.intersects(ferzes) {
            proof {
                if self.board_wf() {
                    let t = choose|t: int| #[trigger] has_bit(c@, t) && has_bit(ferzes@, t);
                    lemma_attack_symmetric(self.board()[t]->0, t, sq as int, self.occupied_bits());
                    assert(self.attacks_from(t, attacker, sq.index(), self.occupied_bits()));
                }
            }
            return true;
        }
        let knights = self.piece_bb(PieceType::Knight.with_color(attacker));
        let d = knight_attacks(sq);
        if d.intersects(knights) {
            proof {
                if self.board_wf() {
                    let t = choose|t: int| #[trigger] has_bit(d@, t) && has_bit(knights@, t);
                    lemma_attack_symmetric(self.board()[t]->0, t, sq as int, self.occupied_bits());
                    assert(self.attacks_from(t, attacker, sq.index(), self.occupied_bits()));
                }
            }
            return true;
        }
        let kings = self.piece_bb(PieceType::King.with_color(attacker));
        let e = king_attacks(sq);
        if e.intersects(kings) {
            proof {
                if self.board_wf() {
                    let t = choose|t: int| #[trigger] has_bit(e@, t) && has_bit(kings@, t);
                    lemma_attack_symmetric(self.board()[t]->0, t, sq as int, self.occupied_bits());
                    assert(self.attacks_from(t, attacker, sq.index(), self.occupied_bits()));
                }
            }
            return true;
        }
        let rooks = self.piece_bb(PieceType::Rook.with_color(attacker));
        let occ = self.occ();
        let f = rook_attacks(sq, occ);
        if f.intersects(rooks) {
            proof {
                if self.board_wf() {
                    let t = choose|t: int| #[trigger] has_bit(f@, t) && has_bit(rooks@, t);
                    lemma_attack_symmetric(self.board()[t]->0, t, sq as int, self.occupied_bits());
                    assert(self.attacks_from(t, attacker, sq.index(), self.occupied_bits()));
                }
            }
            return true;
        }
        proof {
            if self.board_wf() {
                assert forall|t: int| !#[trigger] self.attacks_from(t, attacker, sq.index(), self.occupied_bits()) by {
                    if 0 <= t < 64 && self.board()[t] is Some {
                        let p = self.board()[t]->0;
                        lemma_attack_symmetric(p, t, sq as int, self.occupied_bits());
                        Piece::lemma_parts(p, p.spec_piece_type().spec_with_color(attacker));
                        if self.attacks_from(t, attacker, sq as int, self.occupied_bits()) {
                            match p.spec_piece_type() {
                                PieceType::Pawn => assert(has_bit(a@, t) && has_bit(pawns@, t)),
                                PieceType::Alfil => assert(has_bit(b@, t) && has_bit(alfils@, t)),
                                PieceType::Ferz => assert(has_bit(c@, t) && has_bit(ferzes@, t)),
                                PieceType::Knight => assert(has_bit(d@, t) && has_bit(knights@, t)),
                                PieceType::King => assert(has_bit(e@, t) && has_bit(kings@, t)),
                                PieceType::Rook => assert(has_bit(f@, t) && has_bit(rooks@, t)),
                            }
                        }
                    }
                }
            }
        }
        false
    }
    /// A rook of the side not to move stands on `r` and sees the king of the
    /// side to move through the pieces of the side to move.
    pub open spec fn rook_sees_king(self, r: int) -> bool {
        &&& 0 <= r < 64
        &&& self.board()[r] == Some(PieceType::Rook.spec_with_color(self.them()))
        &&& rook_attack(self.our_king(), r, self.color_bits(self.them()))
    }

    /// A piece of the side to move stands on `q`, between `r` and its king.
    pub open spec fn ours_between(self, r: int, q: int) -> bool {
        has_bit(self.color_bits(self.side()), q) && between(r, self.our_king(), q)
    }

    /// Of the pieces of the side to move between `r` and its king, the only
    /// one stands on `q`.
    pub open spec fn only_ours_between(self, r: int, q: int) -> bool {
        self.ours_between(r, q) && forall|y: int| #[trigger] self.ours_between(r, y) ==> y == q
    }

    /// A rook that sees the king with none of the king's pieces between gives
    /// check, and only such a rook does.
    proof fn lemma_rook_checker(self, t: int)
        requires
            self.board_wf(),
            self.kings_wf(),
        ensures
            (self.rook_sees_king(t) && forall|q: int| !#[trigger] self.ours_between(t, q)) == (
            self.checker_at(t) && self.holds_type(t, PieceType::Rook)),
    {
        lemma_bit_ops();
        let k = self.our_king();
        let occ = self.occupied_bits();
        let their = self.color_bits(self.them());
        assert(0 <= k < 64);
        if 0 <= t < 64 {
            lemma_rook_attack_between(k, t, their);
            lemma_rook_attack_between(t, k, occ);
            if self.board()[t] is Some {
                Piece::lemma_parts(self.board()[t]->0, PieceType::Rook.spec_with_color(self.them()));
            }
            if self.rook_sees_king(t) && forall|q: int| !#[trigger] self.ours_between(t, q) {
                assert forall|y: int| #[trigger] between(t, k, y) implies !has_bit(occ, y) by {
                    lemma_between_symmetric(t, k, y);
                    assert(!self.ours_between(t, y));
                    assert(has_bit(self.color_bits(Color::White), y) == self.holds_color(y, Color::White));
                    assert(has_bit(self.color_bits(Color::Black), y) == self.holds_color(y, Color::Black));
                }
            }
            if self.checker_at(t) && self.holds_type(t, PieceType::Rook) {
                assert forall|y: int| #[trigger] between(k, t, y) implies !has_bit(their, y) by {
                    lemma_between_symmetric(t, k, y);
                }
                assert forall|q: int| !#[trigger] self.ours_between(t, q) by {
                    if self.ours_between(t, q) {
                        assert(has_bit(occ, q));
                    }
                }
            }
        }
    }

    /// The pieces pinned to the king are those alone, of the king's side,
    /// between it and a rook that sees it.
    proof fn lemma_pinned(self, q: int)
        requires
            self.board_wf(),
            self.kings_wf(),
        ensures
            (exists|r: int| self.rook_sees_king(r) && #[trigger] self.only_ours_between(r, q))
                == self.pinned_at(q),
    {
        lemma_bit_ops();
        let k = self.our_king();
        let occ = self.occupied_bits();
        let their = self.color_bits(self.them());
        let our = self.color_bits(self.side());
        assert(0 <= k < 64);
        if exists|r: int| self.rook_sees_king(r) && #[trigger] self.only_ours_between(r, q) {
            let r = choose|r: int| self.rook_sees_king(r) && #[trigger] self.only_ours_between(r, q);
            lemma_rook_attack_between(k, r, their);
            assert forall|y: int|
                #![trigger has_bit(self.occupied_bits(), y)]
                between(r, k, y) && has_bit(occ, y) implies y == q by {
                lemma_between_symmetric(r, k, y);
                assert(has_bit(self.color_bits(Color::White), y) == self.holds_color(y, Color::White));
                assert(has_bit(self.color_bits(Color::Black), y) == self.holds_color(y, Color::Black));
                if has_bit(our, y) {
                    assert(self.ours_between(r, y));
                }
            }
            assert(self.pins_at(r, q));
            assert(has_bit(our, q));
        }
        if self.pinned_at(q) {
            let r = choose|r: int| #[trigger] self.pins_at(r, q);
            lemma_rook_attack_between(k, r, their);
            assert(rook_line(k, r));
            assert forall|y: int| #[trigger] between(k, r, y) implies !has_bit(their, y) by {
                lemma_between_symmetric(r, k, y);
                assert(has_bit(self.color_bits(Color::White), y) == self.holds_color(y, Color::White));
                assert(has_bit(self.color_bits(Color::Black), y) == self.holds_color(y, Color::Black));
                if has_bit(their, y) {
                    assert(has_bit(occ, y));
                }
            }
            assert(self.rook_sees_king(r));
            assert forall|y: int| #[trigger] self.ours_between(r, y) implies y == q by {
                assert(has_bit(occ, y));
            }
            assert(self.only_ours_between(r, q));
        }
    }
    /// Everything but the checks, pins and threats is the same in both.
    pub closed spec fn same_state(self, other: Position) -> bool {
        &&& self.mailbox == other.mailbox
        &&& self.colors == other.colors
        &&& self.pieces == other.pieces
        &&& self.kings == other.kings
        &&& self.stm == other.stm
        &&& self.key == other.key
        &&& self.halfmove == other.halfmove
        &&& self.fullmove == other.fullmove
    }

    /// Positions with the same state have the same board, bitboards, kings,
    /// side to move, key and counters.
    pub proof fn lemma_same_state(self, other: Position)
        requires
            self.same_state(other),
        ensures
            self.board() == other.board(),
            forall|c: Color| #[trigger] self.color_bits(c) == other.color_bits(c),
            forall|pt: PieceType| #[trigger] self.piece_bits(pt) == other.piece_bits(pt),
            forall|c: Color| #[trigger] self.king_square(c) == other.king_square(c),
            self.side() == other.side(),
            self.key_value() == other.key_value(),
            self.halfmove_value() == other.halfmove_value(),
            self.fullmove_value() == other.fullmove_value(),
            self.board_wf() == other.board_wf(),
            self.kings_wf() == other.kings_wf(),
            self.occupied_bits() == other.occupied_bits(),
    {
        if other.board_wf() {
            assert forall|s: int, c: Color| #[trigger] has_bit(self.color_bits(c), s) == self.holds_color(s, c) by {
                assert(has_bit(other.color_bits(c), s) == other.holds_color(s, c));
            }
            assert forall|s: int, pt: PieceType| #[trigger] has_bit(self.piece_bits(pt), s) == self.holds_type(s, pt) by {
                assert(has_bit(other.piece_bits(pt), s) == other.holds_type(s, pt));
            }
        }
        if self.board_wf() {
            assert forall|s: int, c: Color| #[trigger] has_bit(other.color_bits(c), s) == other.holds_color(s, c) by {
                assert(has_bit(self.color_bits(c), s) == self.holds_color(s, c));
            }
            assert forall|s: int, pt: PieceType| #[trigger] has_bit(other.piece_bits(pt), s) == other.holds_type(s, pt) by {
                assert(has_bit(self.piece_bits(pt), s) == self.holds_type(s, pt));
            }
        }
    }

    /// The squares that the side not to move attacks are those its pawns,
    /// other pieces and king attack.
    proof fn lemma_threats(self, t: int, pawns: u64, alfils: u64, ferzes: u64, knights: u64, rooks: u64)
        requires
            self.board_wf(),
            self.kings_wf(),
            forall|s: int| #[trigger] has_bit(pawns, s) == (0 <= s < 64 && self.board()[s] == Some(PieceType::Pawn.spec_with_color(self.them()))),
            forall|s: int| #[trigger] has_bit(alfils, s) == (0 <= s < 64 && self.board()[s] == Some(PieceType::Alfil.spec_with_color(self.them()))),
            forall|s: int| #[trigger] has_bit(ferzes, s) == (0 <= s < 64 && self.board()[s] == Some(PieceType::Ferz.spec_with_color(self.them()))),
            forall|s: int| #[trigger] has_bit(knights, s) == (0 <= s < 64 && self.board()[s] == Some(PieceType::Knight.spec_with_color(self.them()))),
            forall|s: int| #[trigger] has_bit(rooks, s) == (0 <= s < 64 && self.board()[s] == Some(PieceType::Rook.spec_with_color(self.them()))),
        ensures
            ({
                let occ = self.occupied_bits() ^ single(self.our_king());
                self.threat_at(t) == (pawns_attack(pawns, self.them(), t)
                    || (exists|s: int| #[trigger] walked_attack(alfils, 0, PieceType::Alfil.spec_with_color(self.them()), s, t, occ))
                    || (exists|s: int| #[trigger] walked_attack(ferzes, 0, PieceType::Ferz.spec_with_color(self.them()), s, t, occ))
                    || (exists|s: int| #[trigger] walked_attack(knights, 0, PieceType::Knight.spec_with_color(self.them()), s, t, occ))
                    || (exists|s: int| #[trigger] walked_attack(rooks, 0, PieceType::Rook.spec_with_color(self.them()), s, t, occ))
                    || king_attack(self.king_square(self.them()) as int, t))
            }),
    {
        lemma_bit_ops();
        let them = self.them();
        let occ = self.occupied_bits() ^ single(self.our_king());
        if self.threat_at(t) {
            let s = choose|s: int| #[trigger] self.attacks_from(s, them, t, occ);
            let p = self.board()[s]->0;
            Piece::lemma_parts(p, p.spec_piece_type().spec_with_color(them));
            match p.spec_piece_type() {
                PieceType::Pawn => assert(has_bit(pawns, s) && pawn_attack(them, s, t)),
                PieceType::Alfil => assert(walked_attack(alfils, 0, PieceType::Alfil.spec_with_color(them), s, t, occ)),
                PieceType::Ferz => assert(walked_attack(ferzes, 0, PieceType::Ferz.spec_with_color(them), s, t, occ)),
                PieceType::Knight => assert(walked_attack(knights, 0, PieceType::Knight.spec_with_color(them), s, t, occ)),
                PieceType::Rook => assert(walked_attack(rooks, 0, PieceType::Rook.spec_with_color(them), s, t, occ)),
                PieceType::King => assert(s == self.king_square(them) as int),
            }
        }
        if pawns_attack(pawns, them, t) {
            let s = choose|s: int| #[trigger] has_bit(pawns, s) && pawn_attack(them, s, t);
            assert(self.attacks_from(s, them, t, occ));
        }
        if exists|s: int| #[trigger] walked_attack(alfils, 0, PieceType::Alfil.spec_with_color(them), s, t, occ) {
            let s = choose|s: int| #[trigger] walked_attack(alfils, 0, PieceType::Alfil.spec_with_color(them), s, t, occ);
            assert(self.attacks_from(s, them, t, occ));
        }
        if exists|s: int| #[trigger] walked_attack(ferzes, 0, PieceType::Ferz.spec_with_color(them), s, t, occ) {
            let s = choose|s: int| #[trigger] walked_attack(ferzes, 0, PieceType::Ferz.spec_with_color(them), s, t, occ);
            assert(self.attacks_from(s, them, t, occ));
        }
        if exists|s: int| #[trigger] walked_attack(knights, 0, PieceType::Knight.spec_with_color(them), s, t, occ) {
            let s = choose|s: int| #[trigger] walked_attack(knights, 0, PieceType::Knight.spec_with_color(them), s, t, occ);
            assert(self.attacks_from(s, them, t, occ));
        }
        if exists|s: int| #[trigger] walked_attack(rooks, 0, PieceType::Rook.spec_with_color(them), s, t, occ) {
            let s = choose|s: int| #[trigger] walked_attack(rooks, 0, PieceType::Rook.spec_with_color(them), s, t, occ);
            assert(self.attacks_from(s, them, t, occ));
        }
        if king_attack(self.king_square(them) as int, t) {
            assert(self.attacks_from(self.king_square(them) as int, them, t, occ));
        }
    }
    /// Works out the checks against, the pins on, and the threats to the side
    /// to move.
    fn update_attacks(&mut self)
        requires
            old(self).board_wf(),
            old(self).kings_wf(),
        ensures
            final(self).same_state(*old(self)),
            final(self).attack_info_wf(),
    {
        let ghost pos0 = *self;
        let king_sq = self.king_sq(self.stm);
        let them = self.stm.flip();

        self.checkers = self.non_slider_attackers_to(king_sq, them);
        self.pinned = Bitboard::from_raw(0);

        let our_occ = self.color_bb(self.stm);
        let their_occ = self.color_bb(them);

        let their_rooks = self.piece_bb(PieceType::Rook.with_color(them));
        let potential_attackers = their_rooks.and(rook_attacks(king_sq, their_occ));
        proof {
            lemma_bit_ops();
            self.lemma_same_state(pos0);
            assert(them == pos0.them());
            assert(king_sq as int == pos0.our_king());
            assert forall|r: int| #[trigger] has_bit(potential_attackers@, r) == pos0.rook_sees_king(r) by {
                assert(has_bit(their_rooks@, r) == (0 <= r < 64 && self.board()[r] == Some(PieceType::Rook.spec_with_color(them))));
            }
        }
        let mut it = potential_attackers.into_iter();
        loop
            invariant
                self.same_state(pos0),
                pos0.board_wf(),
                pos0.kings_wf(),
                king_sq as int == pos0.our_king(),
                them == pos0.them(),
                our_occ@ == pos0.color_bits(pos0.side()),
                forall|r: int| #[trigger] has_bit(potential_attackers@, r) == pos0.rook_sees_king(r),
                forall|r: int| #[trigger] has_bit(it.remaining()@, r) ==> has_bit(potential_attackers@, r),
                forall|t: int| #[trigger] has_bit(self.checkers@, t) == ((pos0.checker_at(t) && !pos0.holds_type(t, PieceType::Rook)) || (pos0.rook_sees_king(t) && !has_bit(it.remaining()@, t) && forall|q: int| !#[trigger] pos0.ours_between(t, q))),
                forall|q: int| #[trigger] has_bit(self.pinned@, q) == exists|r: int| pos0.rook_sees_king(r) && !has_bit(it.remaining()@, r) && #[trigger] pos0.only_ours_between(r, q),
            ensures
                it.remaining()@ == 0,
            decreases it.remaining()@,
        {
            let ghost rem0 = it.remaining()@;
            match it.next() {
                None => break,
                Some(potential_attacker) => {
                    let ghost pa = potential_attacker as int;
                    let between_bb = ray_between(potential_attacker, king_sq);
                    let maybe_pinned = our_occ.and(between_bb);
                    proof {
                        lemma_bit_ops();
                        assert forall|q: int| #[trigger] has_bit(maybe_pinned@, q) == pos0.ours_between(pa, q) by {
                        }
                    }
                    let ghost checkers0 = self.checkers@;
                    let ghost pinned0 = self.pinned@;
                    if maybe_pinned.is_empty() {
                        self.checkers.set_sq(potential_attacker);
                        proof {
                            let rem1 = it.remaining()@;
                            assert forall|q: int| !#[trigger] pos0.ours_between(pa, q) by {
                                assert(!has_bit(maybe_pinned@, q));
                            }
                            assert forall|q: int| #[trigger] has_bit(self.pinned@, q) == exists|r: int| pos0.rook_sees_king(r) && !has_bit(rem1, r) && #[trigger] pos0.only_ours_between(r, q) by {
                                if exists|r: int| pos0.rook_sees_king(r) && !has_bit(rem1, r) && #[trigger] pos0.only_ours_between(r, q) {
                                    let r = choose|r: int| pos0.rook_sees_king(r) && !has_bit(rem1, r) && #[trigger] pos0.only_ours_between(r, q);
                                    if r == pa {
                                        assert(pos0.ours_between(r, q));
                                    } else {
                                        assert(pos0.rook_sees_king(r) && !has_bit(rem0, r) && pos0.only_ours_between(r, q));
                                    }
                                }
                                if exists|r: int| pos0.rook_sees_king(r) && !has_bit(rem0, r) && #[trigger] pos0.only_ours_between(r, q) {
                                    let r = choose|r: int| pos0.rook_sees_king(r) && !has_bit(rem0, r) && #[trigger] pos0.only_ours_between(r, q);
                                    assert(pos0.rook_sees_king(r) && !has_bit(rem1, r) && pos0.only_ours_between(r, q));
                                }
                            }
                        }
                    } else if maybe_pinned.popcount() == 1 {
                        self.pinned = self.pinned.or(maybe_pinned);
                        proof {
                            let rem1 = it.remaining()@;
                            lemma_popcount_one(maybe_pinned@);
                            let q0 = choose|s: int| #[trigger] only_bit_below(maybe_pinned@, s, 64);
                            assert(pos0.only_ours_between(pa, q0)) by {
                                assert forall|y: int| #[trigger] pos0.ours_between(pa, y) implies y == q0 by {
                                    assert(has_bit(maybe_pinned@, y));
                                }
                            }
                            assert(exists|q: int| #[trigger] pos0.ours_between(pa, q));
                            assert forall|q: int| #[trigger] has_bit(self.pinned@, q) == exists|r: int| pos0.rook_sees_king(r) && !has_bit(rem1, r) && #[trigger] pos0.only_ours_between(r, q) by {
                                if has_bit(maybe_pinned@, q) {
                                    assert(q == q0);
                                    assert(pos0.rook_sees_king(pa) && !has_bit(rem1, pa) && pos0.only_ours_between(pa, q));
                                }
                                if exists|r: int| pos0.rook_sees_king(r) && !has_bit(rem1, r) && #[trigger] pos0.only_ours_between(r, q) {
                                    let r = choose|r: int| pos0.rook_sees_king(r) && !has_bit(rem1, r) && #[trigger] pos0.only_ours_between(r, q);
                                    if r == pa {
                                        assert(has_bit(maybe_pinned@, q));
                                    } else {
                                        assert(pos0.rook_sees_king(r) && !has_bit(rem0, r) && pos0.only_ours_between(r, q));
                                    }
                                }
                                if exists|r: int| pos0.rook_sees_king(r) && !has_bit(rem0, r) && #[trigger] pos0.only_ours_between(r, q) {
                                    let r = choose|r: int| pos0.rook_sees_king(r) && !has_bit(rem0, r) && #[trigger] pos0.only_ours_between(r, q);
                                    assert(pos0.rook_sees_king(r) && !has_bit(rem1, r) && pos0.only_ours_between(r, q));
                                }
                            }
                            assert(pos0.ours_between(pa, q0));
                        }
                    } else {
                        proof {
                            let rem1 = it.remaining()@;
                            lemma_popcount_one(maybe_pinned@);
                            assert forall|q: int| !#[trigger] pos0.only_ours_between(pa, q) by {
                                if pos0.only_ours_between(pa, q) {
                                    assert forall|i: int| 0 <= i < 64 && i != q implies !#[trigger] has_bit(maybe_pinned@, i) by {
                                        if has_bit(maybe_pinned@, i) {
                                            assert(pos0.ours_between(pa, i));
                                        }
                                    }
                                    assert(only_bit_below(maybe_pinned@, q, 64));
                                }
                            }
                            assert forall|q: int| #[trigger] has_bit(self.pinned@, q) == exists|r: int| pos0.rook_sees_king(r) && !has_bit(rem1, r) && #[trigger] pos0.only_ours_between(r, q) by {
                                if exists|r: int| pos0.rook_sees_king(r) && !has_bit(rem1, r) && #[trigger] pos0.only_ours_between(r, q) {
                                    let r = choose|r: int| pos0.rook_sees_king(r) && !has_bit(rem1, r) && #[trigger] pos0.only_ours_between(r, q);
                                    if r != pa {
                                        assert(pos0.rook_sees_king(r) && !has_bit(rem0, r) && pos0.only_ours_between(r, q));
                                    }
                                }
                                if exists|r: int| pos0.rook_sees_king(r) && !has_bit(rem0, r) && #[trigger] pos0.only_ours_between(r, q) {
                                    let r = choose|r: int| pos0.rook_sees_king(r) && !has_bit(rem0, r) && #[trigger] pos0.only_ours_between(r, q);
                                    assert(pos0.rook_sees_king(r) && !has_bit(rem1, r) && pos0.only_ours_between(r, q));
                                }
                            }
                            assert(exists|q: int| #[trigger] pos0.ours_between(pa, q)) by {
                                lemma_empty_witness(maybe_pinned@);
                            }
                        }
                    }
                },
            }
        }
        proof {
            assert forall|t: int| #[trigger] has_bit(self.checkers@, t) == pos0.checker_at(t) by {
                pos0.lemma_rook_checker(t);
            }
            assert forall|q: int| #[trigger] has_bit(self.pinned@, q) == pos0.pinned_at(q) by {
                pos0.lemma_pinned(q);
            }
        }

        proof {
            self.lemma_same_state(pos0);
        }
        let kingless_occ = self.occ().xor(king_sq.bb());
        let their_pawns = self.piece_bb(PieceType::Pawn.with_color(them));
        let their_alfils = self.piece_bb(PieceType::Alfil.with_color(them));
        let their_ferzes = self.piece_bb(PieceType::Ferz.with_color(them));
        let their_knights = self.piece_bb(PieceType::Knight.with_color(them));
        let their_rooks = self.piece_bb(PieceType::Rook.with_color(them));
        let their_king = self.king_sq(them);

        self.threats = Bitboard::from_raw(0);
        self.threats = self.threats.or(pawn_attacks_setwise(their_pawns, them));
        self.threats = add_attacks(self.threats, their_alfils, PieceType::Alfil.with_color(them), kingless_occ);
        self.threats = add_attacks(self.threats, their_ferzes, PieceType::Ferz.with_color(them), kingless_occ);
        self.threats = add_attacks(self.threats, their_knights, PieceType::Knight.with_color(them), kingless_occ);
        self.threats = add_attacks(self.threats, their_rooks, PieceType::Rook.with_color(them), kingless_occ);
        self.threats = self.threats.or(king_attacks(their_king));

        proof {
            lemma_bit_ops();
            self.lemma_same_state(pos0);
            assert(kingless_occ@ == pos0.occupied_bits() ^ single(pos0.our_king()));
            assert forall|t: int| #[trigger] has_bit(self.threats@, t) == pos0.threat_at(t) by {
                pos0.lemma_threats(t, their_pawns@, their_alfils@, their_ferzes@, their_knights@, their_rooks@);
            }
            assert forall|t: int| #[trigger] has_bit(self.checkers@, t) == self.checker_at(t) by {
                assert(has_bit(self.checkers@, t) == pos0.checker_at(t));
            }
            assert forall|t: int| #[trigger] has_bit(self.pinned@, t) == self.pinned_at(t) by {
                assert(has_bit(self.pinned@, t) == pos0.pinned_at(t));
                if self.pinned_at(t) {
                    let r = choose|r: int| #[trigger] self.pins_at(r, t);
                    assert(pos0.pins_at(r, t));
                }
                if pos0.pinned_at(t) {
                    let r = choose|r: int| #[trigger] pos0.pins_at(r, t);
                    assert(self.pins_at(r, t));
                }
            }
            reveal(Position::attack_info_wf);
            assert forall|t: int| #[trigger] has_bit(self.threats@, t) == self.threat_at(t) by {
                assert(has_bit(self.threats@, t) == pos0.threat_at(t));
                let occ = self.occupied_bits() ^ single(self.our_king());
                if self.threat_at(t) {
                    let s = choose|s: int| #[trigger] self.attacks_from(s, self.them(), t, occ);
                    assert(pos0.attacks_from(s, pos0.them(), t, occ));
                }
                if pos0.threat_at(t) {
                    let s = choose|s: int| #[trigger] pos0.attacks_from(s, pos0.them(), t, occ);
                    assert(self.attacks_from(s, self.them(), t, occ));
                }
            }
        }
    }
    /// Square `s` holds `piece` according to the bitboards.
    pub open spec fn bits_hold(self, s: int, piece: Piece) -> bool {
        has_bit(self.piece_bits(piece.spec_piece_type()), s) && has_bit(self.color_bits(piece.spec_color()), s)
    }

    /// The piece on `s` according to the bitboards.
    pub open spec fn bits_piece(self, s: int) -> Option<Piece> {
        if exists|q: Piece| #[trigger] self.bits_hold(s, q) {
            Some(choose|q: Piece| #[trigger] self.bits_hold(s, q))
        } else {
            None
        }
    }

    /// Square `s` is in a color's board exactly when it is in a type's
    /// board, in at most one color's board and in at most one type's board.
    pub open spec fn square_bits_ok(self, s: int) -> bool {
        &&& (has_bit(self.color_bits(Color::White), s) || has_bit(self.color_bits(Color::Black), s))
            == (exists|pt: PieceType| #[trigger] has_bit(self.piece_bits(pt), s))
        &&& !(has_bit(self.color_bits(Color::White), s) && has_bit(self.color_bits(Color::Black), s))
        &&& forall|a: PieceType, b: PieceType|
            #[trigger] has_bit(self.piece_bits(a), s) && #[trigger] has_bit(self.piece_bits(b), s) ==> a == b
    }

    /// The bitboards describe a board: every square holds at most one piece,
    /// and each side has exactly one king.
    pub open spec fn bits_wf(self) -> bool {
        &&& forall|s: int| 0 <= s < 64 ==> #[trigger] self.square_bits_ok(s)
        &&& popcount_spec(self.piece_bits(PieceType::King) & self.color_bits(Color::White)) == 1
        &&& popcount_spec(self.piece_bits(PieceType::King) & self.color_bits(Color::Black)) == 1
    }

    /// Under consistent bitboards a square holds at most one piece.
    proof fn lemma_bits_unique(self, s: int, p: Piece, q: Piece)
        requires
            self.bits_wf(),
            0 <= s < 64,
            self.bits_hold(s, p),
            self.bits_hold(s, q),
        ensures
            p == q,
    {
        assert(self.square_bits_ok(s));
        Piece::lemma_parts(p, q);
        if p.spec_color() != q.spec_color() {
            assert(has_bit(self.color_bits(Color::White), s) && has_bit(self.color_bits(Color::Black), s));
        }
    }

    /// Under consistent bitboards, the board they describe agrees with them.
    proof fn lemma_bits_board(self, s: int, c: Color, pt: PieceType)
        requires
            self.bits_wf(),
            0 <= s < 64,
        ensures
            has_bit(self.color_bits(c), s) == (self.bits_piece(s) is Some && self.bits_piece(s)->0.spec_color() == c),
            has_bit(self.piece_bits(pt), s) == (self.bits_piece(s) is Some && self.bits_piece(s)->0.spec_piece_type() == pt),
    {
        assert(self.square_bits_ok(s));
        if exists|q: Piece| #[trigger] self.bits_hold(s, q) {
            let q = choose|q: Piece| #[trigger] self.bits_hold(s, q);
            if has_bit(self.color_bits(c), s) && q.spec_color() != c {
                assert(has_bit(self.color_bits(Color::White), s) && has_bit(self.color_bits(Color::Black), s));
            }
            if has_bit(self.piece_bits(pt), s) {
                assert(has_bit(self.piece_bits(q.spec_piece_type()), s));
            }
        } else {
            if has_bit(self.color_bits(c), s) {
                let pt2 = choose|pt2: PieceType| #[trigger] has_bit(self.piece_bits(pt2), s);
                assert(self.bits_hold(s, pt2.spec_with_color(c)));
            }
            if has_bit(self.piece_bits(pt), s) {
                if has_bit(self.color_bits(Color::White), s) {
                    assert(self.bits_hold(s, pt.spec_with_color(Color::White)));
                } else {
                    assert(has_bit(self.color_bits(Color::Black), s));
                    assert(self.bits_hold(s, pt.spec_with_color(Color::Black)));
                }
            }
        }
    }

    /// A position with nothing on the board, white to move.
    pub(crate) fn empty() -> (r: Self)
        ensures
            r.board() == Seq::new(64, |i: int| None::<Piece>),
            forall|c: Color| #[trigger] r.color_bits(c) == 0,
            forall|pt: PieceType| #[trigger] r.piece_bits(pt) == 0,
            r.side() == Color::White,
            r.halfmove_value() == 0,
            r.fullmove_value() == 1,
    {
        Self {
            mailbox: [None; 64],
            colors: [Bitboard::from_raw(0), Bitboard::from_raw(0)],
            pieces: [
                Bitboard::from_raw(0),
                Bitboard::from_raw(0),
                Bitboard::from_raw(0),
                Bitboard::from_raw(0),
                Bitboard::from_raw(0),
                Bitboard::from_raw(0),
            ],
            kings: [Square::A1, Square::A1],
            stm: Color::White,
            checkers: Bitboard::from_raw(0),
            pinned: Bitboard::from_raw(0),
            threats: Bitboard::from_raw(0),
            key: 0,
            halfmove: 0,
            fullmove: 1,
        }
    }
    /// The king of `color` stands, in this position, where the bitboards of
    /// `pos0` put it.
    spec fn king_placed(self, pos0: Position, color: Color) -> bool {
        pos0.bits_hold(self.kings@[color as int] as int, PieceType::King.spec_with_color(color))
    }

    /// What the board holds on `s` once the pieces before `i`, and of piece
    /// `i` those not in `rem`, have been placed from the bitboards.
    spec fn placed(self, s: int, i: int, rem: u64) -> Option<Piece> {
        match self.bits_piece(s) {
            Some(q) => if (q as int) < i || ((q as int) == i && !has_bit(rem, s)) {
                Some(q)
            } else {
                None
            },
            None => None,
        }
    }

    /// Rebuilds the board, the kings, the key and the attack information
    /// from the color and type bitboards.
    pub(crate) fn regen(&mut self)
        requires
            old(self).bits_wf(),
        ensures
            final(self).wf(),
            forall|s: int| 0 <= s < 64 ==> #[trigger] final(self).board()[s] == old(self).bits_piece(s),
            forall|c: Color| #[trigger] final(self).color_bits(c) == old(self).color_bits(c),
            forall|pt: PieceType| #[trigger] final(self).piece_bits(pt) == old(self).piece_bits(pt),
            final(self).side() == old(self).side(),
            final(self).halfmove_value() == old(self).halfmove_value(),
            final(self).fullmove_value() == old(self).fullmove_value(),
    {
        let ghost pos0 = *self;
        self.mailbox = [None; 64];
        self.key = 0;
        proof {
            assert(board_key(self.mailbox@, 64) == 0) by {
                lemma_board_key_empty(self.mailbox@, 64);
            }
            lemma_bit_ops();
        }
        let mut piece_it = Piece::all();
        loop
            invariant_except_break
                0 <= piece_it.position() <= 12,
                forall|s: int| 0 <= s < 64 ==> #[trigger] self.mailbox@[s] == pos0.placed(s, piece_it.position(), 0xFFFF_FFFF_FFFF_FFFFu64),
                forall|c: Color| 10 + (c as int) < piece_it.position() ==> #[trigger] self.king_placed(pos0, c),
            invariant
                self.colors == pos0.colors,
                self.pieces == pos0.pieces,
                self.stm == pos0.stm,
                self.halfmove == pos0.halfmove,
                self.fullmove == pos0.fullmove,
                pos0.bits_wf(),
                self.mailbox@.len() == 64,
                self.key == board_key(self.mailbox@, 64),
            ensures
                forall|s: int| 0 <= s < 64 ==> #[trigger] self.mailbox@[s] == pos0.placed(s, 12, 0xFFFF_FFFF_FFFF_FFFFu64),
                forall|c: Color| #[trigger] self.king_placed(pos0, c),
            decreases 13 - piece_it.position(),
        {
            let ghost i = piece_it.position();
            let ghost kings_before = self.kings;
            match piece_it.next() {
                None => {
                    proof {
                        assert forall|c: Color| #[trigger] self.king_placed(pos0, c) by {
                            assert(10 + (c as int) < i);
                        }
                    }
                    break;
                },
                Some(piece) => {
                    let bb = self.piece_bb(piece);
                    let mut sq_it = bb.into_iter();
                    proof {
                        lemma_bit_ops();
                        assert(self.color_bits(piece.spec_color()) == pos0.color_bits(piece.spec_color()));
                        assert(self.piece_bits(piece.spec_piece_type()) == pos0.piece_bits(piece.spec_piece_type()));
                        assert forall|s: int| 0 <= s < 64 implies #[trigger] self.mailbox@[s] == pos0.placed(s, i, bb@) by {
                            assert(self.mailbox@[s] == pos0.placed(s, i, 0xFFFF_FFFF_FFFF_FFFFu64));
                            if pos0.bits_piece(s) is Some {
                                let q = pos0.bits_piece(s)->0;
                                if q as int == i {
                                    assert(pos0.bits_hold(s, q));
                                }
                            }
                        }
                    }
                    loop
                        invariant
                            self.colors == pos0.colors,
                            self.pieces == pos0.pieces,
                            self.stm == pos0.stm,
                            self.halfmove == pos0.halfmove,
                            self.fullmove == pos0.fullmove,
                            pos0.bits_wf(),
                            piece as int == i,
                            0 <= i < 12,
                            forall|s: int| #[trigger] has_bit(bb@, s) == pos0.bits_hold(s, piece),
                            forall|s: int| #[trigger] has_bit(sq_it.remaining()@, s) ==> has_bit(bb@, s),
                            self.mailbox@.len() == 64,
                            forall|s: int| 0 <= s < 64 ==> #[trigger] self.mailbox@[s] == pos0.placed(s, i, sq_it.remaining()@),
                            self.key == board_key(self.mailbox@, 64),
                            forall|c: Color| 10 + (c as int) < i ==> #[trigger] self.king_placed(pos0, c),
                            forall|c: Color| 10 + (c as int) == i && (exists|s: int| #[trigger] has_bit(bb@, s) && !has_bit(sq_it.remaining()@, s)) ==> #[trigger] self.king_placed(pos0, c),
                        ensures
                            sq_it.remaining()@ == 0,
                        decreases sq_it.remaining()@,
                    {
                        let ghost rem0 = sq_it.remaining()@;
                        let ghost mb0 = self.mailbox@;
                        let ghost self0 = *self;
                        match sq_it.next() {
                            None => break,
                            Some(sq) => {
                                proof {
                                    assert(mb0[sq as int] == pos0.placed(sq as int, i, rem0));
                                    assert(pos0.bits_hold(sq as int, piece));
                                    pos0.lemma_bits_unique(sq as int, piece, pos0.bits_piece(sq as int)->0);
                                    assert(mb0[sq as int] == None::<Piece>);
                                }
                                self.mailbox[sq.idx()] = Some(piece);
                                let k = psq_key(piece, sq);
                                proof {
                                    lemma_board_key_update(mb0, sq as int, Some(piece), 64);
                                    lemma_xor_zero();
                                    Square::lemma_from_int(sq);
                                    assert(square_key(mb0, sq as int) == 0);
                                    assert(square_key(self.mailbox@, sq as int) == k);
                                }
                                self.key = self.key ^ k;
                                let ghost kings0 = self.kings;
                                if piece.piece_type() == PieceType::King {
                                    self.kings[piece.color().idx()] = sq;
                                }
                                proof {
                                    let rem1 = sq_it.remaining()@;
                                    assert forall|c: Color| 10 + (c as int) < i implies #[trigger] self.king_placed(pos0, c) by {
                                        assert(self0.king_placed(pos0, c));
                                        assert(self.kings@[c as int] == kings0@[c as int]);
                                    }
                                    assert forall|s: int| 0 <= s < 64 implies #[trigger] self.mailbox@[s] == pos0.placed(s, i, rem1) by {
                                        if s != sq as int {
                                            assert(self.mailbox@[s] == mb0[s]);
                                            assert(mb0[s] == pos0.placed(s, i, rem0));
                                        } else {
                                            pos0.lemma_bits_unique(s, piece, pos0.bits_piece(s)->0);
                                        }
                                    }
                                    assert forall|c: Color| 10 + (c as int) == i && (exists|s: int| #[trigger] has_bit(bb@, s) && !has_bit(rem1, s)) implies #[trigger] self.king_placed(pos0, c) by {
                                        Piece::lemma_parts(piece, PieceType::King.spec_with_color(c));
                                    }
                                }
                            },
                        }
                    }
                    proof {
                        assert forall|s: int| 0 <= s < 64 implies #[trigger] self.mailbox@[s] == pos0.placed(s, i + 1, 0xFFFF_FFFF_FFFF_FFFFu64) by {
                            assert(self.mailbox@[s] == pos0.placed(s, i, 0));
                            lemma_bit_ops();
                        }
                        assert forall|c: Color| 10 + (c as int) < i + 1 implies #[trigger] self.king_placed(pos0, c) by {
                            if 10 + (c as int) == i {
                                lemma_popcount_one(pos0.piece_bits(PieceType::King) & pos0.color_bits(c));
                                let s0 = choose|s0: int| #[trigger] only_bit_below(pos0.piece_bits(PieceType::King) & pos0.color_bits(c), s0, 64);
                                lemma_bit_ops();
                                Piece::lemma_parts(piece, PieceType::King.spec_with_color(c));
                                assert(has_bit(bb@, s0));
                            }
                        }
                    }
                },
            }
        }
        proof {
            assert forall|s: int| 0 <= s < 64 implies #[trigger] self.mailbox@[s] == pos0.bits_piece(s) by {
                assert(self.mailbox@[s] == pos0.placed(s, 12, 0xFFFF_FFFF_FFFF_FFFFu64));
                if pos0.bits_piece(s) is Some {
                    assert(pos0.bits_piece(s)->0 as int <= 11);
                }
            }
        }
        let ghost self1 = *self;
        if self.stm == Color::Black {
            self.key = self.key ^ stm_key();
        }
        proof {
            assert forall|c: Color| #[trigger] self.king_placed(pos0, c) by {
                assert(self1.king_placed(pos0, c));
            }
            lemma_xor_zero();
            assert(self.key == zobrist(self.mailbox@, self.stm));
            self.lemma_regen_wf(pos0);
        }
        let ghost pre = *self;
        self.update_attacks();
        proof {
            self.lemma_same_state(pre);
            assert forall|c: Color| #[trigger] self.color_bits(c) == old(self).color_bits(c) by {
                assert(pre.color_bits(c) == pos0.color_bits(c));
            }
            assert forall|pt: PieceType| #[trigger] self.piece_bits(pt) == old(self).piece_bits(pt) by {
                assert(pre.piece_bits(pt) == pos0.piece_bits(pt));
            }
        }
    }
    /// A board rebuilt from consistent bitboards, with the kings where the
    /// bitboards put them, is well formed.
    proof fn lemma_regen_wf(self, pos0: Position)
        requires
            pos0.bits_wf(),
            self.colors == pos0.colors,
            self.pieces == pos0.pieces,
            self.mailbox@.len() == 64,
            forall|s: int| 0 <= s < 64 ==> #[trigger] self.mailbox@[s] == pos0.bits_piece(s),
            forall|c: Color| #[trigger] self.king_placed(pos0, c),
        ensures
            self.board_wf(),
            self.kings_wf(),
    {
        assert forall|s: int, c: Color| #[trigger] has_bit(self.color_bits(c), s) == self.holds_color(s, c) by {
            if 0 <= s < 64 {
                pos0.lemma_bits_board(s, c, PieceType::Pawn);
            }
        }
        assert forall|s: int, pt: PieceType| #[trigger] has_bit(self.piece_bits(pt), s) == self.holds_type(s, pt) by {
            if 0 <= s < 64 {
                pos0.lemma_bits_board(s, Color::White, pt);
            }
        }
        assert forall|c: Color| #[trigger] self.king_ok(c) by {
            let kp = PieceType::King.spec_with_color(c);
            let k = self.kings@[c as int] as int;
            assert(self.king_placed(pos0, c));
            assert(pos0.bits_hold(k, kp));
            let q = choose|q: Piece| #[trigger] pos0.bits_hold(k, q);
            pos0.lemma_bits_unique(k, kp, q);
            assert(self.board()[k] == Some(kp));
            lemma_bit_ops();
            lemma_popcount_one(pos0.piece_bits(PieceType::King) & pos0.color_bits(c));
            Piece::lemma_parts(kp, kp);
            assert forall|s: int|
                #![trigger self.board()[s]]
                0 <= s < 64 && self.board()[s] == Some(kp) implies s == k by {
                let q2 = choose|q: Piece| #[trigger] pos0.bits_hold(s, q);
                assert(pos0.bits_hold(s, kp));
                let s0 = choose|s0: int| #[trigger] only_bit_below(pos0.piece_bits(PieceType::King) & pos0.color_bits(c), s0, 64);
                assert(has_bit(pos0.piece_bits(PieceType::King) & pos0.color_bits(c), s));
                assert(has_bit(pos0.piece_bits(PieceType::King) & pos0.color_bits(c), k));
            }
        }
        assert(self.king_ok(Color::White));
        assert(self.king_ok(Color::Black));
    }
    /// The initial position: on the first rank rook, knight, alfil, king,
    /// ferz, alfil, knight, rook from the a-file, pawns on the second rank,
    /// and black the same from the eighth; white to move.
    pub fn startpos() -> (r: Self)
        ensures
            r.wf(),
            r.color_bits(Color::White) == 0x000000000000FFFFu64,
            r.color_bits(Color::Black) == 0xFFFF000000000000u64,
            r.piece_bits(PieceType::Pawn) == 0x00FF00000000FF00u64,
            r.piece_bits(PieceType::Alfil) == 0x2400000000000024u64,
            r.piece_bits(PieceType::Ferz) == 0x1000000000000010u64,
            r.piece_bits(PieceType::Knight) == 0x4200000000000042u64,
            r.piece_bits(PieceType::Rook) == 0x8100000000000081u64,
            r.piece_bits(PieceType::King) == 0x0800000000000008u64,
            r.side() == Color::White,
            r.halfmove_value() == 0,
            r.fullmove_value() == 1,
            crate::play::playable(r),
    {
        let mut pos = Self::empty();

        pos.colors[Color::White.idx()] = Bitboard::from_raw(0x000000000000FFFF);
        pos.colors[Color::Black.idx()] = Bitboard::from_raw(0xFFFF000000000000);

        pos.pieces[PieceType::Pawn.idx()] = Bitboard::from_raw(0x00FF00000000FF00);
        pos.pieces[PieceType::Alfil.idx()] = Bitboard::from_raw(0x2400000000000024);
        pos.pieces[PieceType::Ferz.idx()] = Bitboard::from_raw(0x1000000000000010);
        pos.pieces[PieceType::Knight.idx()] = Bitboard::from_raw(0x4200000000000042);
        pos.pieces[PieceType::Rook.idx()] = Bitboard::from_raw(0x8100000000000081);
        pos.pieces[PieceType::King.idx()] = Bitboard::from_raw(0x0800000000000008);

        proof {
            lemma_start_bits();
            lemma_bit_ops();
            assert forall|s: int| 0 <= s < 64 implies #[trigger] pos.square_bits_ok(s) by {
                if has_bit(0x00FF00000000FF00u64, s) {
                    assert(has_bit(pos.piece_bits(PieceType::Pawn), s));
                }
                if has_bit(0x2400000000000024u64, s) {
                    assert(has_bit(pos.piece_bits(PieceType::Alfil), s));
                }
                if has_bit(0x1000000000000010u64, s) {
                    assert(has_bit(pos.piece_bits(PieceType::Ferz), s));
                }
                if has_bit(0x4200000000000042u64, s) {
                    assert(has_bit(pos.piece_bits(PieceType::Knight), s));
                }
                if has_bit(0x8100000000000081u64, s) {
                    assert(has_bit(pos.piece_bits(PieceType::Rook), s));
                }
                if has_bit(0x0800000000000008u64, s) {
                    assert(has_bit(pos.piece_bits(PieceType::King), s));
                }
            }
            lemma_popcount_one(0x0800000000000008u64 & 0x000000000000FFFFu64);
            lemma_popcount_one(0x0800000000000008u64 & 0xFFFF000000000000u64);
            assert(has_bit(0x0800000000000008u64 & 0x000000000000FFFFu64, 3));
            assert(has_bit(0x0800000000000008u64 & 0xFFFF000000000000u64, 59));
            assert(only_bit_below(0x0800000000000008u64 & 0x000000000000FFFFu64, 3, 64));
            assert(only_bit_below(0x0800000000000008u64 & 0xFFFF000000000000u64, 59, 64));
        }
        pos.regen();
        proof {
            crate::play::lemma_start_playable(pos);
        }
        pos
    }

    /// The unique checker's square when one piece gives check.
    pub open spec fn checker_square(self) -> int {
        u64_trailing_zeros(self.checker_bits()) as int
    }

    /// The rules for a pawn of the side to move going from `from` to `to`:
    /// forward; diagonally one file aside only to capture a piece of the
    /// other side; straight on only one rank and only to an empty square;
    /// with the promotion flag exactly when it reaches the last rank.
    #[verifier::opaque]
    pub open spec fn legal_pawn_move(self, from: int, to: int, promo: bool) -> bool {
        let side = self.side();
        &&& (match side {
            Color::White => rank_of(to) > rank_of(from),
            Color::Black => rank_of(to) < rank_of(from),
        })
        &&& (file_of(from) != file_of(to) ==> pawn_attack(side, from, to) && has_bit(self.color_bits(side.opposite()), to))
        &&& (file_of(from) == file_of(to) ==> (rank_of(from) - rank_of(to) == 1 || rank_of(to) - rank_of(from) == 1) && self.board()[to] is None)
        &&& promo == (rank_of(to) == spec_relative_rank(side, 7))
    }

    /// A piece other than a pawn reaches `to` from `from`: a king only where
    /// the other side does not attack.
    #[verifier::opaque]
    pub open spec fn piece_reaches(self, moving: Piece, from: int, to: int) -> bool {
        match moving.spec_piece_type() {
            PieceType::Alfil => alfil_attack(from, to),
            PieceType::Ferz => ferz_attack(from, to),
            PieceType::Knight => knight_attack(from, to),
            PieceType::Rook => rook_attack(from, to, self.occupied_bits()),
            PieceType::King => king_attack(from, to) && !has_bit(self.threat_bits(), to),
            PieceType::Pawn => false,
        }
    }

    /// The parts of legality that making a move relies on: it moves a piece
    /// of the side to move to another square that the side to move does not
    /// hold, and only a pawn promotes.
    pub open spec fn move_basics(self, m: u16) -> bool {
        &&& packed_from(m) != packed_to(m)
        &&& self.board()[packed_from(m)] is Some
        &&& self.board()[packed_from(m)]->0.spec_color() == self.side()
        &&& !self.holds_color(packed_to(m), self.side())
        &&& packed_promo(m) ==> self.board()[packed_from(m)]->0.spec_piece_type() == PieceType::Pawn
    }

    /// A legal move has the basic properties.
    pub proof fn lemma_legal_basics(self, m: u16)
        requires
            self.legal_move(m),
        ensures
            self.move_basics(m),
    {
        reveal(Position::legal_move);
    }

    /// A legal move empties the square it leaves. The square it reaches then
    /// holds a ferz of the side that moved after a promotion, and the piece
    /// that moved otherwise; every other square keeps what it held.
    pub proof fn lemma_move_squares(self, m: u16)
        requires
            self.legal_move(m),
        ensures
            self.board_after(m).len() == 64,
            self.board_after(m)[packed_from(m)] is None,
            packed_promo(m) ==> self.board_after(m)[packed_to(m)] is Some,
            packed_promo(m) ==> self.board_after(m)[packed_to(m)]->0.spec_piece_type() == PieceType::Ferz,
            packed_promo(m) ==> self.board_after(m)[packed_to(m)]->0.spec_color() == self.side(),
            !packed_promo(m) ==> self.board_after(m)[packed_to(m)] == self.board()[packed_from(m)],
            forall|s: int|
                0 <= s < 64 && s != packed_from(m) && s != packed_to(m) ==> #[trigger] self.board_after(m)[s] == self.board()[s],
    {
        self.lemma_legal_basics(m);
    }

    /// A legal move carries the promotion flag exactly when a pawn reaches the
    /// last rank: the eighth for White, the first for Black. A pawn moves one
    /// rank forward, straight on to an empty square or one file aside onto a
    /// piece of the other side.
    pub proof fn lemma_pawn_rules(self, m: u16)
        requires
            self.wf(),
            self.legal_move(m),
        ensures
            packed_promo(m) == (self.board()[packed_from(m)]->0.spec_piece_type() == PieceType::Pawn && rank_of(
                packed_to(m),
            ) == if self.side() == Color::White {
                7int
            } else {
                0int
            }),
            self.board()[packed_from(m)]->0.spec_piece_type() == PieceType::Pawn ==> rank_of(packed_to(m)) - rank_of(
                packed_from(m),
            ) == if self.side() == Color::White {
                1int
            } else {
                -1int
            },
            self.board()[packed_from(m)]->0.spec_piece_type() == PieceType::Pawn ==> (self.board()[packed_to(m)] is None
                == (file_of(packed_to(m)) == file_of(packed_from(m)))),
    {
        reveal(Position::legal_move);
        reveal(Position::legal_pawn_move);
        let t = packed_to(m);
        assert(has_bit(self.color_bits(self.side().opposite()), t) == self.holds_color(t, self.side().opposite()));
    }

    /// Whether the packed move `m` is legal for the side to move: it moves a
    /// piece of the side to move to another square; out of a single check it
    /// captures the checker or blocks the line, unless the king moves; out of
    /// a double check only the king moves; a pinned piece stays on the line
    /// from its king; it does not capture its own side; and it follows the
    /// piece's rules.
    #[verifier::opaque]
    pub open spec fn legal_move(self, m: u16) -> bool {
        let from = packed_from(m);
        let to = packed_to(m);
        let king = self.our_king();
        &&& from != to
        &&& self.board()[from] is Some
        &&& {
            let moving = self.board()[from]->0;
            &&& moving.spec_color() == self.side()
            &&& (self.checker_bits() != 0 && moving.spec_piece_type() != PieceType::King) ==> (
            popcount_spec(self.checker_bits()) <= 1 && (between(king, self.checker_square(), to) || to
                == self.checker_square()))
            &&& has_bit(self.pinned_bits(), from) ==> past(king, from, to)
            &&& !self.holds_color(to, self.side())
            &&& if moving.spec_piece_type() == PieceType::Pawn {
                self.legal_pawn_move(from, to, packed_promo(m))
            } else {
                !packed_promo(m) && self.piece_reaches(moving, from, to)
            }
        }
    }

    /// Out of check by a single piece, `to` captures the checker or blocks
    /// its line to the king on `king_sq`; a double check is not evaded so.
    fn evades_check(&self, king_sq: Square, to: Square) -> (r: bool)
        requires
            self.checker_bits() != 0,
        ensures
            r == (popcount_spec(self.checker_bits()) <= 1 && (between(king_sq as int, self.checker_square(), to as int) || to as int == self.checker_square())),
    {
        // multiple checks may only be evaded with a king move
        if self.checkers.popcount() > 1 {
            return false;
        }

        let checker = self.checkers.lsb().unwrap();
        let rb = ray_between(king_sq, checker);
        let cb = checker.bb();
        let check_mask = rb.or(cb);

        proof {
            crate::bitboard::lemma_or_bit(rb@, cb@, to as int);
            crate::bitboard::lemma_single_bit(checker as int, to as int);
        }
        check_mask.has_sq(to)
    }

    /// A piece on `from` that is pinned to the king on `king_sq` stays on the
    /// line from its king.
    fn keeps_pin(&self, king_sq: Square, from: Square, to: Square) -> (r: bool)
        ensures
            r == (has_bit(self.pinned_bits(), from as int) ==> past(king_sq as int, from as int, to as int)),
    {
        !(self.pinned.has_sq(from) && !ray_past(king_sq, from).has_sq(to))
    }

    /// Whether `mv` is a legal move for the side to move.
    pub fn is_legal(&self, mv: Move) -> (r: bool)
        ensures
            r == self.legal_move(mv@),
            r == crate::movegen::legal_set(*self).contains(mv@),
    {
        proof {
            reveal(Position::legal_move);
        }
        let from = mv.from_sq();
        let to = mv.to_sq();

        if from == to {
            return false;
        }

        let king_sq = self.king_sq(self.stm);

        let moving = if let Some(moving) = self.piece_on(from) {
            moving
        } else {
            return false;
        };

        let captured = self.piece_on(to);

        if moving.color() != self.stm {
            return false;
        }

        if self.in_check() && moving.piece_type() != PieceType::King {
            if !self.evades_check(king_sq, to) {
                return false;
            }
        }

        if !self.keeps_pin(king_sq, from, to) {
            return false;
        }

        if let Some(captured) = captured {
            if captured.color() == self.stm {
                // king captures are not tested: positions where one is
                // pseudolegal cannot be reached without an illegal move
                return false;
            }
        }

        if moving.piece_type() == PieceType::Pawn {
            self.pawn_move_ok(from, to, mv.is_promo())
        } else {
            if mv.is_promo() {
                return false;
            }
            self.piece_move_ok(moving, from, to)
        }
    }

    /// The pawn rules for a pawn of the side to move.
    fn pawn_move_ok(&self, from: Square, to: Square, promo: bool) -> (r: bool)
        ensures
            r == self.legal_pawn_move(from as int, to as int, promo),
    {
        proof {
            reveal(Position::legal_pawn_move);
        }
        let captured = self.piece_on(to);
        let from_rank = from.rank();
        let to_rank = to.rank();

        if match self.stm {
            Color::White => to_rank <= from_rank,
            Color::Black => to_rank >= from_rank,
        } {
            return false;
        }

        if from.file() != to.file() {
            let captures = pawn_attacks(from, self.stm).and(self.color_bb(self.stm.flip()));
            proof {
                lemma_bit_ops();
            }
            if !captures.has_sq(to) {
                return false;
            }
        } else {
            let diff = if from_rank > to_rank { from_rank - to_rank } else { to_rank - from_rank };
            if diff != 1 {
                return false;
            }

            if captured.is_some() {
                return false;
            }
        }

        let promo_rank = relative_rank(self.stm, RANK_8);
        if promo != (to.rank() == promo_rank) {
            return false;
        }
        true
    }

    /// The rules of a piece other than a pawn.
    fn piece_move_ok(&self, moving: Piece, from: Square, to: Square) -> (r: bool)
        ensures
            r == self.piece_reaches(moving, from.index(), to.index()),
    {
        proof {
            reveal(Position::piece_reaches);
        }
        let moves = match moving.piece_type() {
            PieceType::Alfil => alfil_attacks(from),
            PieceType::Ferz => ferz_attacks(from),
            PieceType::Knight => knight_attacks(from),
            PieceType::Rook => rook_attacks(from, self.occ()),
            PieceType::King => king_attacks(from).and(self.threats.cmpl()),
            PieceType::Pawn => Bitboard::from_raw(0),
        };

        proof {
            lemma_bit_ops();
        }
        moves.has_sq(to)
    }
    /// The piece that stands on the target square after the packed move `m`:
    /// a ferz of the side to move after a promotion, else the moving piece.
    pub open spec fn arriving_piece(self, m: u16) -> Piece {
        if packed_promo(m) {
            PieceType::Ferz.spec_with_color(self.side())
        } else {
            self.board()[packed_from(m)]->0
        }
    }

    /// The board after the packed move `m`.
    pub open spec fn board_after(self, m: u16) -> Seq<Option<Piece>> {
        self.board().update(packed_from(m), None).update(packed_to(m), Some(self.arriving_piece(m)))
    }

    /// The move `m` resets the halfmove clock: it captures or moves a pawn.
    pub open spec fn resets_halfmove(self, m: u16) -> bool {
        self.board()[packed_to(m)] is Some || self.board()[packed_from(m)]->0.spec_piece_type()
            == PieceType::Pawn
    }

    /// The move `m` captures a king.
    pub open spec fn captures_king(self, m: u16) -> bool {
        self.board()[packed_to(m)] is Some && self.board()[packed_to(m)]->0.spec_piece_type()
            == PieceType::King
    }

    /// How the move `m` changes the board of color `c`.
    pub open spec fn color_bits_after(self, m: u16, c: Color) -> u64 {
        if c == self.side() {
            self.color_bits(c) ^ (single(packed_from(m)) ^ single(packed_to(m)))
        } else if self.board()[packed_to(m)] is Some {
            self.color_bits(c) ^ single(packed_to(m))
        } else {
            self.color_bits(c)
        }
    }

    /// How the move `m` changes the board of piece type `pt`.
    pub open spec fn piece_bits_after(self, m: u16, pt: PieceType) -> u64 {
        let f = packed_from(m);
        let t = packed_to(m);
        let mb = if pt == self.board()[f]->0.spec_piece_type() { single(f) } else { 0u64 };
        let tb = if pt == self.arriving_piece(m).spec_piece_type() { single(t) } else { 0u64 };
        let cb = if self.board()[t] is Some && pt == self.board()[t]->0.spec_piece_type() { single(t) } else { 0u64 };
        ((self.piece_bits(pt) ^ mb) ^ tb) ^ cb
    }

    /// After a legal move the bitboards agree with the board.
    proof fn lemma_apply_board(self, new_pos: Position, m: u16)
        requires
            self.wf(),
            self.move_basics(m),
            new_pos.board() == self.board_after(m),
            new_pos.color_bits(Color::White) == self.color_bits_after(m, Color::White),
            new_pos.color_bits(Color::Black) == self.color_bits_after(m, Color::Black),
            new_pos.piece_bits(PieceType::Pawn) == self.piece_bits_after(m, PieceType::Pawn),
            new_pos.piece_bits(PieceType::Alfil) == self.piece_bits_after(m, PieceType::Alfil),
            new_pos.piece_bits(PieceType::Ferz) == self.piece_bits_after(m, PieceType::Ferz),
            new_pos.piece_bits(PieceType::Knight) == self.piece_bits_after(m, PieceType::Knight),
            new_pos.piece_bits(PieceType::Rook) == self.piece_bits_after(m, PieceType::Rook),
            new_pos.piece_bits(PieceType::King) == self.piece_bits_after(m, PieceType::King),
        ensures
            new_pos.board_wf(),
    {
        lemma_bit_ops();
        lemma_masks();
        let f = packed_from(m);
        let t = packed_to(m);
        let side = self.side();
        let moving = self.board()[f]->0;
        let target = self.arriving_piece(m);
        assert(target.spec_color() == side);
        assert forall|q: int, c: Color| #[trigger] has_bit(new_pos.color_bits(c), q) == new_pos.holds_color(q, c) by {
            assert(has_bit(self.color_bits(c), q) == self.holds_color(q, c));
            match c {
                Color::White => assert(new_pos.color_bits(c) == self.color_bits_after(m, c)),
                Color::Black => assert(new_pos.color_bits(c) == self.color_bits_after(m, c)),
            }
        }
        assert forall|q: int, pt: PieceType| #[trigger] has_bit(new_pos.piece_bits(pt), q) == new_pos.holds_type(q, pt) by {
            assert(has_bit(self.piece_bits(pt), q) == self.holds_type(q, pt));
            match pt {
                PieceType::Pawn => assert(new_pos.piece_bits(pt) == self.piece_bits_after(m, pt)),
                PieceType::Alfil => assert(new_pos.piece_bits(pt) == self.piece_bits_after(m, pt)),
                PieceType::Ferz => assert(new_pos.piece_bits(pt) == self.piece_bits_after(m, pt)),
                PieceType::Knight => assert(new_pos.piece_bits(pt) == self.piece_bits_after(m, pt)),
                PieceType::Rook => assert(new_pos.piece_bits(pt) == self.piece_bits_after(m, pt)),
                PieceType::King => assert(new_pos.piece_bits(pt) == self.piece_bits_after(m, pt)),
            }
        }
    }

    /// After a legal move that captures no king, each side still has one
    /// king, where `king_square` says.
    proof fn lemma_apply_kings(self, new_pos: Position, m: u16)
        requires
            self.wf(),
            self.move_basics(m),
            !self.captures_king(m),
            new_pos.board() == self.board_after(m),
            forall|c: Color| #[trigger] new_pos.king_square(c) == if c == self.side() && self.board()[packed_from(m)]->0.spec_piece_type() == PieceType::King {
                new_pos.king_square(c)
            } else {
                self.king_square(c)
            },
            self.board()[packed_from(m)]->0.spec_piece_type() == PieceType::King ==> new_pos.king_square(self.side()) as int == packed_to(m),
        ensures
            new_pos.kings_wf(),
    {
        let f = packed_from(m);
        let t = packed_to(m);
        let side = self.side();
        let moving = self.board()[f]->0;
        let target = self.arriving_piece(m);
        assert forall|c: Color| #[trigger] new_pos.king_ok(c) by {
            assert(self.king_ok(c));
            let kp = PieceType::King.spec_with_color(c);
            Piece::lemma_parts(moving, kp);
            Piece::lemma_parts(target, kp);
            if c == side && moving.spec_piece_type() == PieceType::King {
                assert(new_pos.king_square(c) as int == t);
                assert forall|q: int|
                    #![trigger new_pos.board()[q]]
                    0 <= q < 64 && new_pos.board()[q] == Some(kp) implies q == new_pos.king_square(c) as int by {
                    if q != t && q != f {
                        assert(self.board()[q] == Some(kp));
                    }
                }
            } else {
                assert(new_pos.king_square(c) == self.king_square(c));
                let k = self.king_square(c) as int;
                assert(k != f);
                if c == side {
                    assert(self.holds_color(k, side));
                }
                assert(k != t);
                assert forall|q: int|
                    #![trigger new_pos.board()[q]]
                    0 <= q < 64 && new_pos.board()[q] == Some(kp) implies q == k by {
                    if q != t && q != f {
                        assert(self.board()[q] == Some(kp));
                    }
                }
            }
        }
    }

    /// The key updates of a move give the Zobrist key of the new board with
    /// the other side to move.
    proof fn lemma_apply_key(self, m: u16, new_key: u64)
        requires
            self.wf(),
            self.move_basics(m),
            new_key == (((self.key_value() ^ spec_psq_key(self.board()[packed_from(m)]->0, Square::from_int(packed_from(m))))
                ^ spec_psq_key(self.arriving_piece(m), Square::from_int(packed_to(m))))
                ^ square_key(self.board(), packed_to(m))) ^ spec_stm_key(),
        ensures
            new_key == zobrist(self.board_after(m), self.them()),
    {
        let f = packed_from(m);
        let t = packed_to(m);
        let target = self.arriving_piece(m);
        let b0 = self.board();
        let b1 = b0.update(f, None::<Piece>);
        let b2 = b1.update(t, Some(target));
        lemma_board_key_update(b0, f, None::<Piece>, 64);
        lemma_board_key_update(b1, t, Some(target), 64);
        let bk0 = board_key(b0, 64);
        let bk2 = board_key(b2, 64);
        let pm = spec_psq_key(b0[f]->0, Square::from_int(f));
        let pt = spec_psq_key(target, Square::from_int(t));
        let pc = square_key(b0, t);
        let stk = spec_stm_key();
        let s0: u64 = if self.side() == Color::Black { stk } else { 0u64 };
        let s1: u64 = if self.them() == Color::Black { stk } else { 0u64 };
        let k0 = self.key_value();
        assert(square_key(b0, f) == pm);
        assert(square_key(b1, f) == 0u64);
        assert(square_key(b1, t) == pc);
        assert(square_key(b2, t) == pt);
        assert(bk2 == (bk0 ^ (pm ^ 0u64)) ^ (pc ^ pt));
        assert(k0 == bk0 ^ s0);
        assert((s0 == 0u64 && s1 == stk) || (s0 == stk && s1 == 0u64));
        assert(new_key == bk2 ^ s1) by (bit_vector)
            requires
                new_key == (((k0 ^ pm) ^ pt) ^ pc) ^ stk,
                k0 == bk0 ^ s0,
                bk2 == (bk0 ^ (pm ^ 0u64)) ^ (pc ^ pt),
                (s0 == 0u64 && s1 == stk) || (s0 == stk && s1 == 0u64),
        ;
        assert(b2 == self.board_after(m));
    }

    /// Moves the piece of the legal move `mv` in the color and type
    /// bitboards of `new_pos`, and takes off what it captures.
    fn move_bitboards(&self, new_pos: &mut Position, mv: Move, moving: Piece, target: Piece)
        requires
            self.wf(),
            self.move_basics(mv@),
            old(new_pos).colors == self.colors,
            old(new_pos).pieces == self.pieces,
            moving == self.board()[packed_from(mv@)]->0,
            target == self.arriving_piece(mv@),
        ensures
            final(new_pos).mailbox == old(new_pos).mailbox,
            final(new_pos).kings == old(new_pos).kings,
            final(new_pos).stm == old(new_pos).stm,
            final(new_pos).key == old(new_pos).key,
            final(new_pos).halfmove == old(new_pos).halfmove,
            final(new_pos).fullmove == old(new_pos).fullmove,
            final(new_pos).color_bits(Color::White) == self.color_bits_after(mv@, Color::White),
            final(new_pos).color_bits(Color::Black) == self.color_bits_after(mv@, Color::Black),
            final(new_pos).piece_bits(PieceType::Pawn) == self.piece_bits_after(mv@, PieceType::Pawn),
            final(new_pos).piece_bits(PieceType::Alfil) == self.piece_bits_after(mv@, PieceType::Alfil),
            final(new_pos).piece_bits(PieceType::Ferz) == self.piece_bits_after(mv@, PieceType::Ferz),
            final(new_pos).piece_bits(PieceType::Knight) == self.piece_bits_after(mv@, PieceType::Knight),
            final(new_pos).piece_bits(PieceType::Rook) == self.piece_bits_after(mv@, PieceType::Rook),
            final(new_pos).piece_bits(PieceType::King) == self.piece_bits_after(mv@, PieceType::King),
    {
        proof {
            lemma_xor_zero();
        }
        let from = mv.from_sq();
        let to = mv.to_sq();
        let us = self.stm.idx();
        new_pos.colors[us] = new_pos.colors[us].xor(from.bb().xor(to.bb()));

        let mi = moving.piece_type().idx();
        new_pos.pieces[mi] = new_pos.pieces[mi].xor(from.bb());
        let ti = target.piece_type().idx();
        new_pos.pieces[ti] = new_pos.pieces[ti].xor(to.bb());

        if let Some(captured) = self.piece_on(to) {
            let them = self.stm.flip().idx();
            new_pos.colors[them] = new_pos.colors[them].xor(to.bb());
            let ci = captured.piece_type().idx();
            new_pos.pieces[ci] = new_pos.pieces[ci].xor(to.bb());
        }
    }

    /// The position after the legal move `mv`.
    pub fn apply_move(&self, mv: Move) -> (r: Self)
        requires
            self.wf(),
            self.legal_move(mv@),
            !self.captures_king(mv@),
            self.resets_halfmove(mv@) || self.halfmove_value() < u16::MAX,
            self.side() == Color::Black ==> self.fullmove_value() < u32::MAX,
        ensures
            r.wf(),
            r.board() == self.board_after(mv@),
            r.side() == self.them(),
            r.halfmove_value() == if self.resets_halfmove(mv@) {
                0
            } else {
                self.halfmove_value() + 1
            },
            r.fullmove_value() == if self.side() == Color::Black {
                self.fullmove_value() + 1
            } else {
                self.fullmove_value() as int
            },
            !crate::legality::exposes_king(r),
            crate::play::playable(*self) ==> crate::play::playable(r),
            r.board()[packed_from(mv@)] is None,
            packed_promo(mv@) ==> r.board()[packed_to(mv@)] is Some,
            packed_promo(mv@) ==> r.board()[packed_to(mv@)]->0.spec_piece_type() == PieceType::Ferz,
            packed_promo(mv@) ==> r.board()[packed_to(mv@)]->0.spec_color() == self.side(),
            !packed_promo(mv@) ==> r.board()[packed_to(mv@)] == self.board()[packed_from(mv@)],
            forall|s: int|
                0 <= s < 64 && s != packed_from(mv@) && s != packed_to(mv@) ==> #[trigger] r.board()[s] == self.board()[s],
            self.board()[packed_to(mv@)] is Some ==> r.halfmove_value() == 0,
            self.board()[packed_from(mv@)]->0.spec_piece_type() == PieceType::Pawn ==> r.halfmove_value() == 0,
            self.board()[packed_to(mv@)] is None && self.board()[packed_from(mv@)]->0.spec_piece_type()
                != PieceType::Pawn ==> r.halfmove_value() == self.halfmove_value() + 1,
    {
        proof {
            self.lemma_legal_basics(mv@);
            self.lemma_move_squares(mv@);
        }
        let mut new_pos = self.moved(mv);
        let ghost pre = new_pos;
        new_pos.update_attacks();
        proof {
            new_pos.lemma_same_state(pre);
            assert(new_pos.wf());
            assert(new_pos.board() == self.board_after(mv@));
            assert(new_pos.side() == self.them());
            crate::legality::lemma_legal_move_safe(*self, mv@, new_pos);
            if crate::play::playable(*self) {
                crate::play::lemma_move_playable(*self, mv@, new_pos);
            }
        }
        new_pos
    }

    /// The fields that making the move `m` sets give a position whose
    /// board, bitboards, kings and key agree.
    proof fn lemma_moved(self, mid: Position, new_pos: Position, m: u16, km: u64, kt: u64, kc: u64, ks: u64)
        requires
            self.wf(),
            self.move_basics(m),
            !self.captures_king(m),
            new_pos.mailbox@ == self.board_after(m),
            new_pos.colors == mid.colors,
            new_pos.pieces == mid.pieces,
            mid.color_bits(Color::White) == self.color_bits_after(m, Color::White),
            mid.color_bits(Color::Black) == self.color_bits_after(m, Color::Black),
            mid.piece_bits(PieceType::Pawn) == self.piece_bits_after(m, PieceType::Pawn),
            mid.piece_bits(PieceType::Alfil) == self.piece_bits_after(m, PieceType::Alfil),
            mid.piece_bits(PieceType::Ferz) == self.piece_bits_after(m, PieceType::Ferz),
            mid.piece_bits(PieceType::Knight) == self.piece_bits_after(m, PieceType::Knight),
            mid.piece_bits(PieceType::Rook) == self.piece_bits_after(m, PieceType::Rook),
            mid.piece_bits(PieceType::King) == self.piece_bits_after(m, PieceType::King),
            self.board()[packed_from(m)]->0.spec_piece_type() == PieceType::King ==> new_pos.kings@[self.stm as int] as int == packed_to(m),
            self.board()[packed_from(m)]->0.spec_piece_type() != PieceType::King ==> new_pos.kings@[self.stm as int] == self.kings@[self.stm as int],
            new_pos.kings@[self.stm.opposite() as int] == self.kings@[self.stm.opposite() as int],
            new_pos.stm == self.stm.opposite(),
            km == spec_psq_key(self.board()[packed_from(m)]->0, Square::from_int(packed_from(m))),
            kt == spec_psq_key(self.arriving_piece(m), Square::from_int(packed_to(m))),
            kc == square_key(self.board(), packed_to(m)),
            ks == spec_stm_key(),
            new_pos.key == (((self.key ^ km) ^ kt) ^ kc) ^ ks,
        ensures
            new_pos.board_wf(),
            new_pos.kings_wf(),
            new_pos.key_value() == zobrist(new_pos.board(), new_pos.side()),
    {
        assert(new_pos.color_bits(Color::White) == mid.color_bits(Color::White));
        assert(new_pos.color_bits(Color::Black) == mid.color_bits(Color::Black));
        assert(new_pos.piece_bits(PieceType::Pawn) == mid.piece_bits(PieceType::Pawn));
        assert(new_pos.piece_bits(PieceType::Alfil) == mid.piece_bits(PieceType::Alfil));
        assert(new_pos.piece_bits(PieceType::Ferz) == mid.piece_bits(PieceType::Ferz));
        assert(new_pos.piece_bits(PieceType::Knight) == mid.piece_bits(PieceType::Knight));
        assert(new_pos.piece_bits(PieceType::Rook) == mid.piece_bits(PieceType::Rook));
        assert(new_pos.piece_bits(PieceType::King) == mid.piece_bits(PieceType::King));
        self.lemma_apply_board(new_pos, m);
        assert forall|c: Color| #[trigger] new_pos.king_square(c) == if c == self.side() && self.board()[packed_from(m)]->0.spec_piece_type() == PieceType::King {
            new_pos.king_square(c)
        } else {
            self.king_square(c)
        } by {
        }
        self.lemma_apply_kings(new_pos, m);
        self.lemma_apply_key(m, new_pos.key);
    }

    /// The position after the move `mv`, before its checks, pins and threats
    /// are worked out.
    fn moved(&self, mv: Move) -> (new_pos: Self)
        requires
            self.wf(),
            self.move_basics(mv@),
            !self.captures_king(mv@),
            self.resets_halfmove(mv@) || self.halfmove_value() < u16::MAX,
            self.side() == Color::Black ==> self.fullmove_value() < u32::MAX,
        ensures
            new_pos.board_wf(),
            new_pos.kings_wf(),
            new_pos.key_value() == zobrist(new_pos.board(), new_pos.side()),
            new_pos.board() == self.board_after(mv@),
            new_pos.side() == self.them(),
            new_pos.halfmove_value() == if self.resets_halfmove(mv@) {
                0
            } else {
                self.halfmove_value() + 1
            },
            new_pos.fullmove_value() == if self.side() == Color::Black {
                self.fullmove_value() + 1
            } else {
                self.fullmove_value() as int
            },
    {
        let mut new_pos = *self;

        let from = mv.from_sq();
        let to = mv.to_sq();

        let moving = self.piece_on(from).unwrap();
        let target = if mv.is_promo() {
            PieceType::Ferz.with_color(self.stm)
        } else {
            moving
        };
        proof {
            lemma_xor_zero();
            assert(target == self.arriving_piece(mv@));
        }

        let captured = self.piece_on(to);
        self.move_bitboards(&mut new_pos, mv, moving, target);
        let ghost mid = new_pos;

        let km = psq_key(moving, from);
        new_pos.key = new_pos.key ^ km;
        let kt = psq_key(target, to);
        new_pos.key = new_pos.key ^ kt;

        let ghost kc: u64 = 0;
        if let Some(captured) = captured {
            let kcap = psq_key(captured, to);
            new_pos.key = new_pos.key ^ kcap;
            proof {
                kc = kcap;
            }
        }

        new_pos.mailbox[from.idx()] = None;
        new_pos.mailbox[to.idx()] = Some(target);

        if moving.piece_type() == PieceType::King {
            new_pos.kings[self.stm.idx()] = to;
        }

        new_pos.stm = new_pos.stm.flip();
        let ks = stm_key();
        new_pos.key = new_pos.key ^ ks;

        if captured.is_some() || moving.piece_type() == PieceType::Pawn {
            new_pos.halfmove = 0;
        } else {
            new_pos.halfmove = new_pos.halfmove + 1;
        }

        if self.stm == Color::Black {
            new_pos.fullmove = new_pos.fullmove + 1;
        }

        proof {
            let m = mv@;
            Square::lemma_from_int(from);
            Square::lemma_from_int(to);
            assert(new_pos.mailbox@ == self.board_after(m));
            assert(kc == square_key(self.board(), packed_to(m)));
            self.lemma_moved(mid, new_pos, m, km, kt, kc, ks);
        }
        new_pos
    }
    /// The position with the turn passed to the other side.
    pub fn apply_nullmove(&self) -> (r: Self)
        requires
            self.wf(),
            self.checker_bits() == 0,
            self.halfmove_value() < u16::MAX,
            self.side() == Color::Black ==> self.fullmove_value() < u32::MAX,
        ensures
            r.wf(),
            r.board() == self.board(),
            r.side() == self.them(),
            r.halfmove_value() == self.halfmove_value() + 1,
            r.fullmove_value() == if self.side() == Color::Black {
                self.fullmove_value() + 1
            } else {
                self.fullmove_value() as int
            },
            r.key_value() == self.key_value() ^ spec_stm_key(),
            !crate::legality::exposes_king(r),
            (r.checker_bits() != 0) == crate::legality::exposes_king(*self),
            crate::play::playable(*self) ==> crate::play::playable(r),
            crate::play::playable(*self) ==> r.checker_bits() == 0,
    {
        proof {
            lemma_empty_iff(self.checkers@);
        }
        let mut new_pos = *self;

        new_pos.stm = new_pos.stm.flip();
        let ks = stm_key();
        new_pos.key = new_pos.key ^ ks;

        new_pos.halfmove = new_pos.halfmove + 1;

        if self.stm == Color::Black {
            new_pos.fullmove = new_pos.fullmove + 1;
        }

        proof {
            let bk = board_key(self.board(), 64);
            let s0: u64 = if self.side() == Color::Black { ks } else { 0u64 };
            let s1: u64 = if self.them() == Color::Black { ks } else { 0u64 };
            let k0 = self.key;
            let k1 = new_pos.key;
            assert((s0 == 0u64 && s1 == ks) || (s0 == ks && s1 == 0u64));
            assert(k1 == bk ^ s1) by (bit_vector)
                requires
                    k1 == k0 ^ ks,
                    k0 == bk ^ s0,
                    (s0 == 0u64 && s1 == ks) || (s0 == ks && s1 == 0u64),
            ;
            new_pos.lemma_board_fields(*self);
        }
        let ghost pre = new_pos;
        new_pos.update_attacks();
        proof {
            new_pos.lemma_same_state(pre);
            assert(new_pos.wf());
            crate::legality::lemma_turn_exposure(*self, new_pos);
            if crate::play::playable(*self) {
                crate::play::lemma_null_playable(*self, new_pos);
            }
        }

        new_pos
    }

    /// Positions with the same board and bitboards are well formed alike.
    proof fn lemma_board_fields(self, other: Position)
        requires
            self.mailbox == other.mailbox,
            self.colors == other.colors,
            self.pieces == other.pieces,
            self.kings == other.kings,
            other.board_wf(),
            other.kings_wf(),
        ensures
            self.board_wf(),
            self.kings_wf(),
    {
        assert forall|s: int, c: Color| #[trigger] has_bit(self.color_bits(c), s) == self.holds_color(s, c) by {
            assert(has_bit(other.color_bits(c), s) == other.holds_color(s, c));
        }
        assert forall|s: int, pt: PieceType| #[trigger] has_bit(self.piece_bits(pt), s) == self.holds_type(s, pt) by {
            assert(has_bit(other.piece_bits(pt), s) == other.holds_type(s, pt));
        }
        assert(other.king_ok(Color::White) && other.king_ok(Color::Black));
    }

    /// In a well-formed position the king board covers both sides' boards
    /// exactly when every piece on the board is a king.
    pub proof fn lemma_only_kings(self)
        requires
            self.wf(),
        ensures
            (self.piece_bits(PieceType::King) & self.color_bits(Color::White) == self.color_bits(Color::White)
                && self.piece_bits(PieceType::King) & self.color_bits(Color::Black) == self.color_bits(Color::Black))
                == forall|s: int| 0 <= s < 64 && #[trigger] self.board()[s] is Some ==> self.board()[s]->0.spec_piece_type() == PieceType::King,
    {
        lemma_bit_ops();
        let k = self.piece_bits(PieceType::King);
        let w = self.color_bits(Color::White);
        let b = self.color_bits(Color::Black);
        if forall|s: int| 0 <= s < 64 && #[trigger] self.board()[s] is Some ==> self.board()[s]->0.spec_piece_type() == PieceType::King {
            assert forall|s: int| 0 <= s < 64 implies #[trigger] has_bit(k & w, s) == has_bit(w, s) by {
                assert(has_bit(w, s) == self.holds_color(s, Color::White));
                assert(has_bit(k, s) == self.holds_type(s, PieceType::King));
            }
            lemma_bits_ext(k & w, w);
            assert forall|s: int| 0 <= s < 64 implies #[trigger] has_bit(k & b, s) == has_bit(b, s) by {
                assert(has_bit(b, s) == self.holds_color(s, Color::Black));
                assert(has_bit(k, s) == self.holds_type(s, PieceType::King));
            }
            lemma_bits_ext(k & b, b);
        }
        if k & w == w && k & b == b {
            assert forall|s: int| 0 <= s < 64 && #[trigger] self.board()[s] is Some implies self.board()[s]->0.spec_piece_type() == PieceType::King by {
                let p = self.board()[s]->0;
                assert(has_bit(w, s) == self.holds_color(s, Color::White));
                assert(has_bit(b, s) == self.holds_color(s, Color::Black));
                assert(has_bit(k, s) == self.holds_type(s, PieceType::King));
                if p.spec_color() == Color::White {
                    assert(has_bit(k & w, s));
                } else {
                    assert(has_bit(k & b, s));
                }
            }
        }
    }

    /// Only the two kings are left.
    pub fn is_insufficient_material(&self) -> (r: bool)
        ensures
            r == (self.piece_bits(PieceType::King) & self.color_bits(Color::White) == self.color_bits(Color::White)
                && self.piece_bits(PieceType::King) & self.color_bits(Color::Black) == self.color_bits(Color::Black)),
            self.wf() ==> (r == forall|s: int| 0 <= s < 64 && #[trigger] self.board()[s] is Some ==> self.board()[s]->0.spec_piece_type() == PieceType::King),
    {
        let wk = self.piece_bb(Piece::WhiteKing);
        let wc = self.color_bb(Color::White);
        let bk = self.piece_bb(Piece::BlackKing);
        let bc = self.color_bb(Color::Black);
        let r = wk == wc && bk == bc;
        proof {
            crate::bitboard::lemma_bitboard_eq(wk, wc);
            crate::bitboard::lemma_bitboard_eq(bk, bc);
            lemma_bit_ops();
            let k = self.piece_bits(PieceType::King);
            let w = self.color_bits(Color::White);
            let b = self.color_bits(Color::Black);
            if self.wf() {
                self.lemma_only_kings();
            }
        }
        r
    }

    /// Whether `color` has only its king left against a side with pieces to
    /// spare. As written the test compares `color`'s own pieces with
    /// themselves after the first check, so it never answers yes.
    pub fn has_bare_king(&self, color: Color) -> (r: bool)
        ensures
            !r,
    {
        let our_king = self.piece_bb(PieceType::King.with_color(color));
        let our_pieces = self.color_bb(color);

        if our_pieces != our_king {
            return false;
        }

        let their_king = self.piece_bb(PieceType::King.with_color(color));
        let their_non_kings = self.color_bb(color).xor(their_king);

        proof {
            assert(our_pieces@ == our_king@);
            assert(their_non_kings@ == our_king@ ^ our_king@);
            let x = our_king@;
            assert(x ^ x == 0u64) by (bit_vector);
        }
        if their_non_kings.is_empty() {
            return false;
        }

        if their_non_kings.popcount() > 1 {
            return true;
        }

        let our_king_attacks = king_attacks(self.king_sq(color));
        let their_king_attacks = king_attacks(self.king_sq(color.flip()));

        let our_king_attacks = our_king_attacks.and(their_king_attacks.cmpl());

        !their_non_kings.and(our_king_attacks.cmpl()).is_empty()
    }

    /// Puts `piece` on `sq` in the color and type bitboards; the board and
    /// the rest follow when `regen` rebuilds them.
    pub(crate) fn put_bits(&mut self, piece: Piece, sq: Square)
        ensures
            forall|c: Color| #[trigger] final(self).color_bits(c) == if c == piece.spec_color() {
                old(self).color_bits(c) | single(sq as int)
            } else {
                old(self).color_bits(c)
            },
            forall|pt: PieceType| #[trigger] final(self).piece_bits(pt) == if pt == piece.spec_piece_type() {
                old(self).piece_bits(pt) | single(sq as int)
            } else {
                old(self).piece_bits(pt)
            },
            final(self).side() == old(self).side(),
            final(self).halfmove_value() == old(self).halfmove_value(),
            final(self).fullmove_value() == old(self).fullmove_value(),
    {
        let c = piece.color().idx();
        let t = piece.piece_type().idx();
        self.colors[c].set_sq(sq);
        self.pieces[t].set_sq(sq);
        proof {
            assert forall|cc: Color| #[trigger] self.color_bits(cc) == if cc == piece.spec_color() {
                old(self).color_bits(cc) | single(sq as int)
            } else {
                old(self).color_bits(cc)
            } by {
                lemma_bits_ext(self.colors@[cc as int]@, if cc == piece.spec_color() {
                    old(self).color_bits(cc) | single(sq as int)
                } else {
                    old(self).color_bits(cc)
                });
            }
            assert forall|pt: PieceType| #[trigger] self.piece_bits(pt) == if pt == piece.spec_piece_type() {
                old(self).piece_bits(pt) | single(sq as int)
            } else {
                old(self).piece_bits(pt)
            } by {
                lemma_bits_ext(self.pieces@[pt as int]@, if pt == piece.spec_piece_type() {
                    old(self).piece_bits(pt) | single(sq as int)
                } else {
                    old(self).piece_bits(pt)
                });
            }
        }
    }

    /// Sets the side to move, the halfmove clock and the move number,
    /// keeping the bitboards.
    pub(crate) fn set_counters(&mut self, stm: Color, halfmove: u16, fullmove: u32)
        ensures
            forall|c: Color| #[trigger] final(self).color_bits(c) == old(self).color_bits(c),
            forall|pt: PieceType| #[trigger] final(self).piece_bits(pt) == old(self).piece_bits(pt),
            final(self).side() == stm,
            final(self).halfmove_value() == halfmove,
            final(self).fullmove_value() == fullmove,
    {
        self.stm = stm;
        self.halfmove = halfmove;
        self.fullmove = fullmove;
    }

    /// A well-formed position is fixed by its board, its side to move and
    /// its counters.
    pub proof fn lemma_alike_equal(p: Position, q: Position)
        requires
            p.wf(),
            q.wf(),
            p.board() == q.board(),
            p.side() == q.side(),
            p.halfmove_value() == q.halfmove_value(),
            p.fullmove_value() == q.fullmove_value(),
        ensures
            p == q,
    {
        broadcast use vstd::array::axiom_array_ext_equal;
        crate::perft::lemma_wf_determined(p, q);
        assert(p.mailbox =~= q.mailbox) by {
            assert(p.mailbox@ == q.mailbox@);
        }
        assert(p.colors =~= q.colors) by {
            assert forall|i: int| 0 <= i < 2 implies p.colors[i] == q.colors[i] by {
                let c = if i == 0 { Color::White } else { Color::Black };
                assert(p.color_bits(c) == q.color_bits(c));
                crate::bitboard::lemma_bitboard_eq(p.colors[i], q.colors[i]);
            }
        }
        assert(p.pieces =~= q.pieces) by {
            assert forall|i: int| 0 <= i < 6 implies p.pieces[i] == q.pieces[i] by {
                let pt = if i == 0 {
                    PieceType::Pawn
                } else if i == 1 {
                    PieceType::Alfil
                } else if i == 2 {
                    PieceType::Ferz
                } else if i == 3 {
                    PieceType::Knight
                } else if i == 4 {
                    PieceType::Rook
                } else {
                    PieceType::King
                };
                assert(p.piece_bits(pt) == q.piece_bits(pt));
                crate::bitboard::lemma_bitboard_eq(p.pieces[i], q.pieces[i]);
            }
        }
        assert(p.kings =~= q.kings) by {
            assert forall|i: int| 0 <= i < 2 implies p.kings[i] == q.kings[i] by {
                let c = if i == 0 { Color::White } else { Color::Black };
                assert(p.king_square(c) == q.king_square(c));
            }
        }
        crate::bitboard::lemma_bitboard_eq(p.checkers, q.checkers);
        crate::bitboard::lemma_bitboard_eq(p.pinned, q.pinned);
        crate::bitboard::lemma_bitboard_eq(p.threats, q.threats);
    }

    /// The squares with a piece are those of the six piece types, and no
    /// square is in two types' boards.
    pub proof fn lemma_occupied_types(self)
        requires
            self.wf(),
        ensures
            self.occupied_bits() == self.piece_bits(PieceType::Pawn) | self.piece_bits(PieceType::Alfil)
                | self.piece_bits(PieceType::Ferz) | self.piece_bits(PieceType::Knight)
                | self.piece_bits(PieceType::Rook) | self.piece_bits(PieceType::King),
            forall|a: PieceType, b: PieceType| a != b ==> #[trigger] self.piece_bits(a) & #[trigger] self.piece_bits(b) == 0,
    {
        lemma_bit_ops();
        let u = self.piece_bits(PieceType::Pawn) | self.piece_bits(PieceType::Alfil)
            | self.piece_bits(PieceType::Ferz) | self.piece_bits(PieceType::Knight)
            | self.piece_bits(PieceType::Rook) | self.piece_bits(PieceType::King);
        assert forall|s: int| 0 <= s < 64 implies #[trigger] has_bit(self.occupied_bits(), s) == has_bit(u, s) by {
            assert(has_bit(self.color_bits(Color::White), s) == self.holds_color(s, Color::White));
            assert(has_bit(self.color_bits(Color::Black), s) == self.holds_color(s, Color::Black));
            assert(has_bit(self.piece_bits(PieceType::Pawn), s) == self.holds_type(s, PieceType::Pawn));
            assert(has_bit(self.piece_bits(PieceType::Alfil), s) == self.holds_type(s, PieceType::Alfil));
            assert(has_bit(self.piece_bits(PieceType::Ferz), s) == self.holds_type(s, PieceType::Ferz));
            assert(has_bit(self.piece_bits(PieceType::Knight), s) == self.holds_type(s, PieceType::Knight));
            assert(has_bit(self.piece_bits(PieceType::Rook), s) == self.holds_type(s, PieceType::Rook));
            assert(has_bit(self.piece_bits(PieceType::King), s) == self.holds_type(s, PieceType::King));
            if self.board()[s] is Some {
                let p = self.board()[s]->0;
                assert(p.spec_color() == Color::White || p.spec_color() == Color::Black);
            }
        }
        lemma_bits_ext(self.occupied_bits(), u);
        assert forall|a: PieceType, b: PieceType| a != b implies #[trigger] self.piece_bits(a) & #[trigger] self.piece_bits(b) == 0 by {
            assert forall|s: int| 0 <= s < 64 implies #[trigger] has_bit(self.piece_bits(a) & self.piece_bits(b), s) == has_bit(0u64, s) by {
                assert(has_bit(self.piece_bits(a), s) == self.holds_type(s, a));
                assert(has_bit(self.piece_bits(b), s) == self.holds_type(s, b));
            }
            lemma_bits_ext(self.piece_bits(a) & self.piece_bits(b), 0u64);
        }
    }
}

} // verus!
