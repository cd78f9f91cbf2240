//! Reading and writing positions in Forsyth–Edwards notation.
use crate::attacks::piece_attack;
use crate::bitboard::{count_bits, has_bit, lemma_bit_ops, lemma_bits_ext, lemma_masks, single};
use crate::core_types::{Color, Piece, PieceType};
use crate::position::{FenError, Position};
use crate::text::str_chars;
use vstd::prelude::*;

verus! {

/// `c` is an ASCII decimal digit.
pub open spec fn is_digit(c: char) -> bool {
    48 <= (c as int) <= 57
}

/// The value of the ASCII decimal digit `c`.
pub open spec fn digit_value(c: char) -> int {
    (c as int) - 48
}

/// How often `c` occurs in `s`.
pub open spec fn count_char(s: Seq<char>, c: char) -> nat
    decreases s.len(),
{
    if s.len() == 0 {
        0
    } else {
        count_char(s.drop_last(), c) + if s.last() == c {
            1nat
        } else {
            0nat
        }
    }
}

/// The piece written with the letter `c`, if any.
pub open spec fn letter_piece(c: char) -> Option<Piece> {
    if exists|p: Piece| #[trigger] p.letter() == c {
        Some(choose|p: Piece| #[trigger] p.letter() == c)
    } else {
        None
    }
}

/// The board with nothing on it.
pub open spec fn empty_board() -> Seq<Option<Piece>> {
    Seq::new(64, |i: int| None::<Piece>)
}

/// The end of rank `rank` (counted from the top) after `file` files: eight
/// files are owed.
pub open spec fn rank_end(rank: int, file: int) -> Option<FenError> {
    if file > 8 {
        Some(FenError::TooManyFiles(rank as usize))
    } else if file < 8 {
        Some(FenError::TooFewFiles(rank as usize))
    } else {
        None
    }
}

/// Reads the piece placement field `cs` from character `i` on, standing in
/// rank `rank` (counted from the top) at file `file`, with the pieces read
/// so far on `board`: ranks end at `/` and at the end, a digit skips that
/// many files, a letter places its piece, and anything else is refused.
pub open spec fn scan_board(cs: Seq<char>, i: int, rank: int, file: int, board: Seq<Option<Piece>>) -> Result<Seq<Option<Piece>>, FenError>
    decreases cs.len() - i,
{
    if i >= cs.len() || i < 0 {
        match rank_end(rank, file) {
            Some(e) => Err(e),
            None => Ok(board),
        }
    } else if cs[i] == '/' {
        match rank_end(rank, file) {
            Some(e) => Err(e),
            None => scan_board(cs, i + 1, rank + 1, 0, board),
        }
    } else if file >= 8 {
        Err(FenError::TooManyFiles(rank as usize))
    } else if is_digit(cs[i]) {
        scan_board(cs, i + 1, rank, file + digit_value(cs[i]), board)
    } else {
        match letter_piece(cs[i]) {
            Some(p) => scan_board(cs, i + 1, rank, file + 1, board.update(8 * (7 - rank) + file, Some(p))),
            None => Err(FenError::InvalidPiece(cs[i])),
        }
    }
}

/// How many of the squares below `n` hold `p`.
pub open spec fn count_piece(board: Seq<Option<Piece>>, p: Piece, n: int) -> nat
    decreases n,
{
    if n <= 0 {
        0
    } else {
        count_piece(board, p, n - 1) + if board[n - 1] == Some(p) {
            1nat
        } else {
            0nat
        }
    }
}

/// How many of the squares below `n` hold a piece.
pub open spec fn count_occupied(board: Seq<Option<Piece>>, n: int) -> nat
    decreases n,
{
    if n <= 0 {
        0
    } else {
        count_occupied(board, n - 1) + if board[n - 1] is Some {
            1nat
        } else {
            0nat
        }
    }
}

/// The value of the decimal digits `ds`.
pub open spec fn decimal_value(ds: Seq<char>) -> int
    decreases ds.len(),
{
    if ds.len() == 0 {
        0
    } else {
        decimal_value(ds.drop_last()) * 10 + digit_value(ds.last())
    }
}

/// The digits of an unsigned number written in `cs`: all after an optional
/// leading `+`.
pub open spec fn unsigned_digits(cs: Seq<char>) -> Seq<char> {
    if cs.len() > 0 && cs[0] == '+' {
        cs.drop_first()
    } else {
        cs
    }
}

/// The number written in `cs` as std reads an unsigned integer: an optional
/// `+`, then one or more decimal digits, with a value of at most `max`.
pub open spec fn parse_unsigned(cs: Seq<char>, max: int) -> Option<int> {
    if unsigned_digits(cs).len() > 0 && (forall|i: int| 0 <= i < unsigned_digits(cs).len() ==> is_digit(#[trigger] unsigned_digits(cs)[i])) && decimal_value(unsigned_digits(cs)) <= max {
        Some(decimal_value(unsigned_digits(cs)))
    } else {
        None
    }
}

/// The halfmove clock given in the fields `parts`, 0 when it is left out.
pub open spec fn halfmove_field(parts: Seq<Seq<char>>) -> Result<u16, FenError> {
    if parts.len() >= 5 {
        match parse_unsigned(parts[4], 0xFFFF) {
            None => Err(FenError::InvalidHalfmove),
            Some(v) => if v > 140 {
                Err(FenError::HalfmoveTooHigh)
            } else {
                Ok(v as u16)
            },
        }
    } else {
        Ok(0)
    }
}

/// The move number given in the fields `parts`, at least 1, and 1 when it
/// is left out.
pub open spec fn fullmove_field(parts: Seq<Seq<char>>) -> Result<u32, FenError> {
    if parts.len() >= 6 {
        match parse_unsigned(parts[5], 0xFFFF_FFFF) {
            None => Err(FenError::InvalidFullmove),
            Some(v) => Ok(if v < 1 {
                1u32
            } else {
                v as u32
            }),
        }
    } else {
        Ok(1)
    }
}

/// What the fields `parts` of a FEN record say, in the order they are
/// checked: the board, the side to move, the halfmove clock and the move
/// number, or the first fault found. The castling and en passant fields are
/// not read.
pub open spec fn fen_fields(parts: Seq<Seq<char>>) -> Result<(Seq<Option<Piece>>, Color, u16, u32), FenError> {
    if parts.len() < 2 {
        Err(FenError::TooFewParts)
    } else if parts.len() > 6 {
        Err(FenError::TooManyParts)
    } else if count_char(parts[0], '/') + 1 < 8 {
        Err(FenError::TooFewRanks)
    } else if count_char(parts[0], '/') + 1 > 8 {
        Err(FenError::TooManyRanks)
    } else {
        match scan_board(parts[0], 0, 0, 0, empty_board()) {
            Err(e) => Err(e),
            Ok(board) => if count_piece(board, Piece::WhiteKing, 64) == 0 {
                Err(FenError::MissingWhiteKing)
            } else if count_piece(board, Piece::WhiteKing, 64) > 1 {
                Err(FenError::MultipleWhiteKings)
            } else if count_piece(board, Piece::BlackKing, 64) == 0 {
                Err(FenError::MissingBlackKing)
            } else if count_piece(board, Piece::BlackKing, 64) > 1 {
                Err(FenError::MultipleBlackKings)
            } else if count_occupied(board, 64) > 32 {
                Err(FenError::TooManyPieces)
            } else if parts[1] != seq!['w'] && parts[1] != seq!['b'] {
                Err(FenError::InvalidStm)
            } else {
                let side = if parts[1] == seq!['w'] {
                    Color::White
                } else {
                    Color::Black
                };
                match halfmove_field(parts) {
                    Err(e) => Err(e),
                    Ok(h) => match fullmove_field(parts) {
                        Err(e) => Err(e),
                        Ok(f) => Ok((board, side, h, f)),
                    },
                }
            },
        }
    }
}

/// The squares of `board` below `n` that hold a piece.
pub open spec fn occupancy(board: Seq<Option<Piece>>, n: int) -> u64
    decreases n,
{
    if n <= 0 {
        0
    } else {
        occupancy(board, n - 1) | if board[n - 1] is Some {
            single(n - 1)
        } else {
            0u64
        }
    }
}

/// The square of `board` that holds `color`'s king.
pub open spec fn king_on(board: Seq<Option<Piece>>, color: Color) -> int {
    choose|s: int| 0 <= s < 64 && board[s] == Some(PieceType::King.spec_with_color(color))
}

/// A piece of `attacker` attacks the king of the other side on `board`.
pub open spec fn king_attacked(board: Seq<Option<Piece>>, attacker: Color) -> bool {
    exists|t: int|
        0 <= t < 64 && #[trigger] board[t] is Some && board[t]->0.spec_color() == attacker
            && piece_attack(board[t]->0, t, king_on(board, attacker.opposite()), occupancy(board, 64))
}

/// What a FEN record with the fields `parts` describes: a position whose
/// side to move could capture the other king is refused.
pub open spec fn fen_result(parts: Seq<Seq<char>>) -> Result<(Seq<Option<Piece>>, Color, u16, u32), FenError> {
    match fen_fields(parts) {
        Err(e) => Err(e),
        Ok(d) => if king_attacked(d.0, d.1) {
            Err(FenError::OpponentInCheck)
        } else {
            Ok(d)
        },
    }
}

/// The squares below `n` that hold a piece make the occupancy.
pub proof fn lemma_occupancy(board: Seq<Option<Piece>>, n: int, s: int)
    requires
        n <= 64,
    ensures
        has_bit(occupancy(board, n), s) == (0 <= s < n && board[s] is Some),
    decreases n,
{
    lemma_bit_ops();
    lemma_masks();
    if n > 0 {
        lemma_occupancy(board, n - 1, s);
    }
}

/// A board that holds `p` on exactly the squares of `x` holds it as often as
/// `x` has bits.
pub proof fn lemma_count_piece(board: Seq<Option<Piece>>, p: Piece, x: u64, n: int)
    requires
        n <= 64,
        forall|s: int| 0 <= s < 64 ==> #[trigger] has_bit(x, s) == (board[s] == Some(p)),
    ensures
        count_bits(x, n) == count_piece(board, p, n),
    decreases n,
{
    if n > 0 {
        lemma_count_piece(board, p, x, n - 1);
        assert(has_bit(x, n - 1) == (board[n - 1] == Some(p)));
    }
}

/// A board that holds pieces on exactly the squares of `x` holds as many
/// pieces as `x` has bits.
pub proof fn lemma_count_occupied(board: Seq<Option<Piece>>, x: u64, n: int)
    requires
        n <= 64,
        forall|s: int| 0 <= s < 64 ==> #[trigger] has_bit(x, s) == (board[s] is Some),
    ensures
        count_bits(x, n) == count_occupied(board, n),
    decreases n,
{
    if n > 0 {
        lemma_count_occupied(board, x, n - 1);
        assert(has_bit(x, n - 1) == (board[n - 1] is Some));
    }
}


/// The value of `c` when it is an ASCII decimal digit.
pub fn digit_of(c: char) -> (r: Option<u8>)
    ensures
        r is Some == is_digit(c),
        r matches Some(d) ==> d == digit_value(c),
{
    match c {
        '0' => Some(0),
        '1' => Some(1),
        '2' => Some(2),
        '3' => Some(3),
        '4' => Some(4),
        '5' => Some(5),
        '6' => Some(6),
        '7' => Some(7),
        '8' => Some(8),
        '9' => Some(9),
        _ => None,
    }
}

/// A prefix of digits is worth no more than the whole.
proof fn lemma_decimal_prefix(ds: Seq<char>, i: int)
    requires
        0 <= i <= ds.len(),
        forall|j: int| 0 <= j < ds.len() ==> is_digit(#[trigger] ds[j]),
    ensures
        decimal_value(ds.take(i)) <= decimal_value(ds),
        0 <= decimal_value(ds),
    decreases ds.len(),
{
    if ds.len() > 0 {
        let d = ds.drop_last();
        assert forall|j: int| 0 <= j < d.len() implies is_digit(#[trigger] d[j]) by {
            assert(d[j] == ds[j]);
        }
        if i < ds.len() {
            lemma_decimal_prefix(d, i);
            assert(d.take(i) =~= ds.take(i));
        } else {
            assert(ds.take(i) =~= ds);
            lemma_decimal_prefix(d, 0);
        }
        assert(is_digit(ds.last()));
    }
}

/// Reads the unsigned number written in `cs`, as std reads one: an optional
/// `+`, then one or more decimal digits, worth at most `max`.
fn parse_unsigned_chars(cs: &Vec<char>, max: u64) -> (r: Option<u64>)
    requires
        max <= 0xFFFF_FFFF,
    ensures
        match parse_unsigned(cs@, max as int) {
            Some(v) => r is Some && r->0 as int == v,
            None => r is None,
        },
{
    let ghost start: int = if cs@.len() > 0 && cs@[0] == '+' {
        1
    } else {
        0
    };
    let ghost ds = cs@.subrange(start, cs@.len() as int);
    let mut i: usize = 0;
    if cs.len() > 0 && cs[0] == '+' {
        i = 1;
    }
    proof {
        if start == 1 {
            assert(ds =~= cs@.drop_first());
        } else {
            assert(ds =~= cs@);
        }
    }
    if i == cs.len() {
        return None;
    }
    let mut value: u64 = 0;
    proof {
        assert(ds.take(0) =~= Seq::<char>::empty());
    }
    while i < cs.len()
        invariant
            start <= i <= cs.len(),
            start == (if cs@.len() > 0 && cs@[0] == '+' { 1int } else { 0int }),
            ds == unsigned_digits(cs@),
            i == start || i > 0,
            ds == cs@.subrange(start, cs@.len() as int),
            forall|j: int| 0 <= j < i - start ==> is_digit(#[trigger] ds[j]),
            value == decimal_value(ds.take(i - start)),
            value <= max,
            max <= 0xFFFF_FFFF,
        decreases cs.len() - i,
    {
        let c = cs[i];
        proof {
            assert(ds[i - start] == cs@[i as int]);
        }
        let d = match digit_of(c) {
            Some(d) => d as u64,
            None => {
                proof {
                    assert(!is_digit(ds[i - start]));
                }
                return None;
            },
        };
        proof {
            let k = i - start;
            assert(is_digit(ds[k]));
            assert(ds.take(k + 1).drop_last() =~= ds.take(k));
            assert(ds.take(k + 1).last() == c);
        }
        value = value * 10 + d;
        if value > max {
            proof {
                let k = i - start + 1;
                if forall|j: int| 0 <= j < ds.len() ==> is_digit(#[trigger] ds[j]) {
                    lemma_decimal_prefix(ds, k);
                }
            }
            return None;
        }
        i = i + 1;
    }
    proof {
        assert(ds.take(ds.len() as int) =~= ds);
    }
    Some(value)
}

/// Counting over one more character.
proof fn lemma_count_char_step(s: Seq<char>, c: char, i: int)
    requires
        0 <= i < s.len(),
    ensures
        count_char(s.take(i + 1), c) == count_char(s.take(i), c) + if s[i] == c {
            1nat
        } else {
            0nat
        },
{
    assert(s.take(i + 1).drop_last() =~= s.take(i));
}

/// A prefix holds no more of a character than the whole.
proof fn lemma_count_char_prefix(s: Seq<char>, c: char, i: int)
    requires
        0 <= i <= s.len(),
    ensures
        count_char(s.take(i), c) <= count_char(s, c),
    decreases s.len() - i,
{
    if i < s.len() {
        lemma_count_char_step(s, c, i);
        lemma_count_char_prefix(s, c, i + 1);
    } else {
        assert(s.take(i) =~= s);
    }
}

/// How often `c` occurs in `cs`.
fn count_in(cs: &Vec<char>, c: char) -> (r: usize)
    ensures
        r == count_char(cs@, c),
{
    let mut n: usize = 0;
    let mut i: usize = 0;
    proof {
        assert(cs@.take(0) =~= Seq::<char>::empty());
    }
    while i < cs.len()
        invariant
            i <= cs.len(),
            n == count_char(cs@.take(i as int), c),
            n <= i,
        decreases cs.len() - i,
    {
        proof {
            lemma_count_char_step(cs@, c, i as int);
        }
        if cs[i] == c {
            n = n + 1;
        }
        i = i + 1;
    }
    proof {
        assert(cs@.take(i as int) =~= cs@);
    }
    n
}

/// The bitboards of `pos` put the pieces of `board` where it has them.
pub open spec fn holds_board(pos: Position, board: Seq<Option<Piece>>) -> bool {
    &&& board.len() == 64
    &&& forall|s: int, c: Color|
        #[trigger] has_bit(pos.color_bits(c), s) == (0 <= s < 64 && board[s] is Some && board[s]->0.spec_color() == c)
    &&& forall|s: int, pt: PieceType|
        #[trigger] has_bit(pos.piece_bits(pt), s) == (0 <= s < 64 && board[s] is Some && board[s]->0.spec_piece_type() == pt)
}

/// Reads the piece placement field `cs`, which has eight ranks, into the
/// bitboards of an empty position with white to move.
fn read_placement(cs: &Vec<char>) -> (r: Result<Position, FenError>)
    requires
        count_char(cs@, '/') == 7,
    ensures
        match scan_board(cs@, 0, 0, 0, empty_board()) {
            Err(e) => r == Err::<Position, FenError>(e),
            Ok(board) => r matches Ok(pos) && holds_board(pos, board) && pos.side() == Color::White
                && pos.halfmove_value() == 0 && pos.fullmove_value() == 1,
        },
{
    let mut pos = Position::empty();
    let ghost mut board = empty_board();
    let mut rank_idx: usize = 0;
    let mut file_idx: usize = 0;
    let mut i: usize = 0;
    proof {
        lemma_bit_ops();
        assert(cs@.take(0) =~= Seq::<char>::empty());
    }
    while i < cs.len()
        invariant
            i <= cs.len(),
            scan_board(cs@, i as int, rank_idx as int, file_idx as int, board) == scan_board(cs@, 0, 0, 0, empty_board()),
            rank_idx == count_char(cs@.take(i as int), '/'),
            count_char(cs@, '/') == 7,
            file_idx <= 16,
            holds_board(pos, board),
            forall|s: int| 0 <= s < 64 && #[trigger] board[s] is Some ==> (7 - crate::core_types::rank_of(s) < rank_idx || (7 - crate::core_types::rank_of(s) == rank_idx && crate::core_types::file_of(s) < file_idx)),
            pos.side() == Color::White,
            pos.halfmove_value() == 0,
            pos.fullmove_value() == 1,
        decreases cs.len() - i,
    {
        proof {
            lemma_count_char_step(cs@, '/', i as int);
            lemma_count_char_prefix(cs@, '/', i as int + 1);
        }
        let c = cs[i];
        if c == '/' {
            if file_idx > 8 {
                return Err(FenError::TooManyFiles(rank_idx));
            }
            if file_idx < 8 {
                return Err(FenError::TooFewFiles(rank_idx));
            }
            rank_idx = rank_idx + 1;
            file_idx = 0;
        } else {
            if file_idx >= 8 {
                return Err(FenError::TooManyFiles(rank_idx));
            }
            match digit_of(c) {
                Some(d) => {
                    file_idx = file_idx + d as usize;
                },
                None => {
                    match Piece::from_char(c) {
                        Some(piece) => {
                            proof {
                                assert(letter_piece(c) == Some(piece)) by {
                                    assert forall|q: Piece| #[trigger] q.letter() == c implies q == piece by {}
                                }
                            }
                            let sq = crate::core_types::Square::from_file_rank(file_idx, 7 - rank_idx).unwrap();
                            let ghost old_board = board;
                            let ghost old_pos = pos;
                            pos.put_bits(piece, sq);
                            proof {
                                board = board.update(sq as int, Some(piece));
                                lemma_bit_ops();
                                lemma_masks();
                                assert(old_board[sq as int] is None);
                                assert forall|s: int, cc: Color| #[trigger] has_bit(pos.color_bits(cc), s) == (0 <= s < 64 && board[s] is Some && board[s]->0.spec_color() == cc) by {
                                    assert(has_bit(old_pos.color_bits(cc), s) == (0 <= s < 64 && old_board[s] is Some && old_board[s]->0.spec_color() == cc));
                                }
                                assert forall|s: int, pt: PieceType| #[trigger] has_bit(pos.piece_bits(pt), s) == (0 <= s < 64 && board[s] is Some && board[s]->0.spec_piece_type() == pt) by {
                                    assert(has_bit(old_pos.piece_bits(pt), s) == (0 <= s < 64 && old_board[s] is Some && old_board[s]->0.spec_piece_type() == pt));
                                }
                            }
                            file_idx = file_idx + 1;
                        },
                        None => {
                            proof {
                                assert(letter_piece(c) is None);
                            }
                            return Err(FenError::InvalidPiece(c));
                        },
                    }
                },
            }
        }
        i = i + 1;
    }
    if file_idx > 8 {
        return Err(FenError::TooManyFiles(rank_idx));
    }
    if file_idx < 8 {
        return Err(FenError::TooFewFiles(rank_idx));
    }
    Ok(pos)
}

/// The characters of each field.
pub open spec fn fields_view(parts: Seq<Vec<char>>) -> Seq<Seq<char>> {
    parts.map_values(|v: Vec<char>| v@)
}

/// `r` is what a FEN record that says `expected` reads as: the same fault,
/// or a well-formed position with that board, side to move and counters.
pub open spec fn fen_matches(r: Result<Position, FenError>, expected: Result<(Seq<Option<Piece>>, Color, u16, u32), FenError>) -> bool {
    match expected {
        Err(e) => r == Err::<Position, FenError>(e),
        Ok(d) => r matches Ok(pos) && pos.wf() && pos.board() == d.0 && pos.side() == d.1
            && pos.halfmove_value() == d.2 && pos.fullmove_value() == d.3,
    }
}

/// Two boards, one of bits and one of pieces, that hold a piece on the same
/// squares are the same occupancy.
pub proof fn lemma_occupancy_bits(board: Seq<Option<Piece>>, x: u64)
    requires
        forall|s: int| 0 <= s < 64 ==> #[trigger] has_bit(x, s) == (board[s] is Some),
    ensures
        x == occupancy(board, 64),
{
    assert forall|s: int| 0 <= s < 64 implies #[trigger] has_bit(x, s) == has_bit(occupancy(board, 64), s) by {
        lemma_occupancy(board, 64, s);
    }
    lemma_bits_ext(x, occupancy(board, 64));
}

/// Reads a position from the fields of a FEN record.
#[verifier::rlimit(40)]
fn read_fen(parts: &Vec<Vec<char>>) -> (r: Result<Position, FenError>)
    ensures
        fen_matches(r, fen_result(fields_view(parts@))),
{
    let ghost view = fields_view(parts@);
    proof {
        assert(view.len() == parts@.len());
    }
    if parts.len() < 2 {
        return Err(FenError::TooFewParts);
    }

    if parts.len() > 6 {
        return Err(FenError::TooManyParts);
    }
    proof {
        assert(view[0] == parts@[0]@);
        assert(view[1] == parts@[1]@);
    }

    let ranks = count_in(&parts[0], '/');

    if ranks < 7 {
        return Err(FenError::TooFewRanks);
    }

    if ranks > 7 {
        return Err(FenError::TooManyRanks);
    }

    let mut pos = match read_placement(&parts[0]) {
        Ok(pos) => pos,
        Err(e) => {
            return Err(e);
        },
    };
    let ghost board = scan_board(view[0], 0, 0, 0, empty_board())->Ok_0;

    let white_kings = pos.piece_bb(Piece::WhiteKing);
    let black_kings = pos.piece_bb(Piece::BlackKing);
    let occ = pos.occ();
    proof {
        lemma_bit_ops();
        assert forall|s: int| 0 <= s < 64 implies #[trigger] has_bit(white_kings@, s) == (board[s] == Some(Piece::WhiteKing)) by {
            if board[s] is Some {
                Piece::lemma_parts(board[s]->0, Piece::WhiteKing);
            }
        }
        assert forall|s: int| 0 <= s < 64 implies #[trigger] has_bit(black_kings@, s) == (board[s] == Some(Piece::BlackKing)) by {
            if board[s] is Some {
                Piece::lemma_parts(board[s]->0, Piece::BlackKing);
            }
        }
        assert forall|s: int| 0 <= s < 64 implies #[trigger] has_bit(occ@, s) == (board[s] is Some) by {
            if board[s] is Some {
                assert(board[s]->0.spec_color() == Color::White || board[s]->0.spec_color() == Color::Black);
            }
        }
        lemma_count_piece(board, Piece::WhiteKing, white_kings@, 64);
        lemma_count_piece(board, Piece::BlackKing, black_kings@, 64);
        lemma_count_occupied(board, occ@, 64);
    }

    let wk = white_kings.popcount();
    if wk == 0 {
        return Err(FenError::MissingWhiteKing);
    }
    if wk > 1 {
        return Err(FenError::MultipleWhiteKings);
    }

    let bk = black_kings.popcount();
    if bk == 0 {
        return Err(FenError::MissingBlackKing);
    }
    if bk > 1 {
        return Err(FenError::MultipleBlackKings);
    }

    if occ.popcount() > 32 {
        return Err(FenError::TooManyPieces);
    }

    let side_field = &parts[1];
    let stm = if side_field.len() == 1 && side_field[0] == 'w' {
        proof {
            assert(view[1] =~= seq!['w']);
        }
        Color::White
    } else if side_field.len() == 1 && side_field[0] == 'b' {
        proof {
            assert(view[1] =~= seq!['b']);
        }
        Color::Black
    } else {
        proof {
            if view[1] == seq!['w'] || view[1] == seq!['b'] {
                assert(view[1].len() == 1);
            }
        }
        return Err(FenError::InvalidStm);
    };

    let mut halfmove: u16 = 0;
    if parts.len() >= 5 {
        proof {
            assert(view[4] == parts@[4]@);
        }
        match parse_unsigned_chars(&parts[4], 0xFFFF) {
            Some(value) => {
                if value > 140 {
                    proof {
                        assert(halfmove_field(view) == Err::<u16, FenError>(FenError::HalfmoveTooHigh));
                    }
                    return Err(FenError::HalfmoveTooHigh);
                }
                halfmove = value as u16;
            },
            None => {
                return Err(FenError::InvalidHalfmove);
            },
        }
    }

    let mut fullmove: u32 = 1;
    if parts.len() >= 6 {
        proof {
            assert(view[5] == parts@[5]@);
        }
        match parse_unsigned_chars(&parts[5], 0xFFFF_FFFF) {
            Some(value) => {
                fullmove = value as u32;
                if fullmove < 1 {
                    fullmove = 1;
                }
            },
            None => {
                return Err(FenError::InvalidFullmove);
            },
        }
    }

    pos.set_counters(stm, halfmove, fullmove);
    let ghost before = pos;
    proof {
        lemma_bit_ops();
        assert forall|s: int| 0 <= s < 64 implies #[trigger] pos.square_bits_ok(s) by {
            if board[s] is Some {
                let pt = board[s]->0.spec_piece_type();
                assert(has_bit(pos.piece_bits(pt), s));
            }
        }
        assert(pos.piece_bits(PieceType::King) & pos.color_bits(Color::White) == white_kings@);
        assert(pos.piece_bits(PieceType::King) & pos.color_bits(Color::Black) == black_kings@);
    }
    pos.regen();
    proof {
        assert forall|s: int| 0 <= s < 64 implies #[trigger] pos.board()[s] == board[s] by {
            assert(pos.board()[s] == before.bits_piece(s));
            if board[s] is Some {
                let q = board[s]->0;
                assert(before.bits_hold(s, q));
                let c = choose|c: Piece| #[trigger] before.bits_hold(s, c);
                Piece::lemma_parts(c, q);
            } else {
                if exists|c: Piece| #[trigger] before.bits_hold(s, c) {
                    let c = choose|c: Piece| #[trigger] before.bits_hold(s, c);
                    assert(has_bit(before.color_bits(c.spec_color()), s));
                }
            }
        }
        assert(pos.board() =~= board);
    }

    let them = pos.stm().flip();
    let their_king = pos.king_sq(them);
    let attacked = pos.is_attacked(their_king, pos.stm());
    proof {
        assert(pos.king_ok(them));
        assert(their_king as int == king_on(board, them));
        assert forall|s: int| 0 <= s < 64 implies #[trigger] has_bit(pos.occupied_bits(), s) == (board[s] is Some) by {
            assert(has_bit(pos.color_bits(Color::White), s) == pos.holds_color(s, Color::White));
            assert(has_bit(pos.color_bits(Color::Black), s) == pos.holds_color(s, Color::Black));
            if board[s] is Some {
                assert(board[s]->0.spec_color() == Color::White || board[s]->0.spec_color() == Color::Black);
            }
        }
        lemma_occupancy_bits(board, pos.occupied_bits());
        if attacked {
            let t = choose|t: int| #[trigger] pos.attacks_from(t, stm, their_king.index(), pos.occupied_bits());
            assert(board[t] is Some);
        }
        if king_attacked(board, stm) {
            let t = choose|t: int| 0 <= t < 64 && #[trigger] board[t] is Some && board[t]->0.spec_color() == stm
                && piece_attack(board[t]->0, t, king_on(board, stm.opposite()), occupancy(board, 64));
            assert(pos.attacks_from(t, stm, their_king.index(), pos.occupied_bits()));
        }
    }
    if attacked {
        return Err(FenError::OpponentInCheck);
    }

    Ok(pos)
}

impl Position {
    /// Reads a position from the fields of a FEN record: the piece
    /// placement, the side to move, then, optionally, the castling and en
    /// passant fields (not read), the halfmove clock and the move number.
    pub fn from_fen_parts(parts: &[&str]) -> (r: Result<Self, FenError>)
        ensures
            fen_matches(r, fen_result(parts@.map_values(|p: &str| p@))),
            r is Ok ==> crate::play::playable(r->Ok_0),
            forall|n: nat| r is Ok && parts@.len() >= 5 && #[trigger] decimal_text(n) == parts@[4]@ ==> n <= 140 && r->Ok_0.halfmove_value() == n,
            forall|n: nat| r is Ok && parts@.len() >= 6 && #[trigger] decimal_text(n) == parts@[5]@ ==> r->Ok_0.fullmove_value() == if n == 0 {
                1
            } else {
                n
            },
            r is Ok && parts@.len() < 5 ==> r->Ok_0.halfmove_value() == 0,
            r is Ok && parts@.len() < 6 ==> r->Ok_0.fullmove_value() == 1,
            r is Ok ==> parts@.len() >= 2 && (parts@[1]@ == seq!['w'] || parts@[1]@ == seq!['b']),
            r is Ok ==> (r->Ok_0.side() == Color::White) == (parts@[1]@ == seq!['w']),
            parts@.len() < 2 ==> r == Err::<Position, FenError>(FenError::TooFewParts),
            parts@.len() > 6 ==> r == Err::<Position, FenError>(FenError::TooManyParts),
    {
        let mut fields: Vec<Vec<char>> = Vec::new();
        let mut i: usize = 0;
        while i < parts.len()
            invariant
                i <= parts@.len(),
                fields@.len() == i,
                forall|j: int| 0 <= j < i ==> #[trigger] fields@[j]@ == parts@[j]@,
            decreases parts@.len() - i,
        {
            let cs = str_chars(parts[i]);
            fields.push(cs);
            i = i + 1;
        }
        proof {
            assert(fields_view(fields@) =~= parts@.map_values(|p: &str| p@));
        }
        let r = read_fen(&fields);
        proof {
            crate::roundtrip::lemma_fen_part_count(parts@.map_values(|p: &str| p@), r);
            if r is Ok {
                crate::play::lemma_read_playable(r, parts@.map_values(|p: &str| p@));
                assert forall|n: nat| r is Ok && parts@.len() >= 5 && #[trigger] decimal_text(n) == parts@[4]@ implies n <= 140 && r->Ok_0.halfmove_value() == n by {
                    crate::roundtrip::lemma_fen_counters(parts@.map_values(|p: &str| p@), r, n);
                }
                assert forall|n: nat| r is Ok && parts@.len() >= 6 && #[trigger] decimal_text(n) == parts@[5]@ implies r->Ok_0.fullmove_value() == if n == 0 {
                    1
                } else {
                    n
                } by {
                    crate::roundtrip::lemma_fen_counters(parts@.map_values(|p: &str| p@), r, n);
                }
                crate::roundtrip::lemma_fen_counters(parts@.map_values(|p: &str| p@), r, 0);
                crate::roundtrip::lemma_fen_side(parts@.map_values(|p: &str| p@), r);
            }
        }
        r
    }
}

/// `c` is ASCII whitespace: a space, a tab, a line feed, a form feed or a
/// carriage return.
pub open spec fn is_ascii_space(c: char) -> bool {
    c == ' ' || c == '\t' || c == '\n' || c == '\x0C' || c == '\r'
}

/// The words of `cs` from character `i` on, the longest runs of characters
/// that are not ASCII whitespace, after the finished `words` and the part
/// `cur` of a word read so far.
pub open spec fn words_from(cs: Seq<char>, i: int, cur: Seq<char>, words: Seq<Seq<char>>) -> Seq<Seq<char>>
    decreases cs.len() - i,
{
    if i >= cs.len() || i < 0 {
        if cur.len() > 0 {
            words.push(cur)
        } else {
            words
        }
    } else if is_ascii_space(cs[i]) {
        words_from(cs, i + 1, Seq::empty(), if cur.len() > 0 {
            words.push(cur)
        } else {
            words
        })
    } else {
        words_from(cs, i + 1, cur.push(cs[i]), words)
    }
}

/// The words of `cs`, split at ASCII whitespace.
pub open spec fn ascii_words(cs: Seq<char>) -> Seq<Seq<char>> {
    words_from(cs, 0, Seq::empty(), Seq::empty())
}

/// `c` is ASCII whitespace.
fn is_space(c: char) -> (r: bool)
    ensures
        r == is_ascii_space(c),
{
    c == ' ' || c == '\t' || c == '\n' || c == '\x0C' || c == '\r'
}

/// Splits `cs` into its words at ASCII whitespace.
fn split_words(cs: &Vec<char>) -> (r: Vec<Vec<char>>)
    ensures
        fields_view(r@) == ascii_words(cs@),
{
    let mut words: Vec<Vec<char>> = Vec::new();
    let mut cur: Vec<char> = Vec::new();
    let mut i: usize = 0;
    proof {
        assert(fields_view(words@) =~= Seq::<Seq<char>>::empty());
        assert(cur@ =~= Seq::<char>::empty());
    }
    while i < cs.len()
        invariant
            i <= cs.len(),
            words_from(cs@, i as int, cur@, fields_view(words@)) == ascii_words(cs@),
        decreases cs.len() - i,
    {
        let c = cs[i];
        if is_space(c) {
            if cur.len() > 0 {
                let ghost w0 = words@;
                let word = cur;
                words.push(word);
                proof {
                    assert(fields_view(words@) =~= fields_view(w0).push(word@));
                }
            }
            cur = Vec::new();
            proof {
                assert(cur@ =~= Seq::<char>::empty());
            }
        } else {
            cur.push(c);
        }
        i = i + 1;
    }
    if cur.len() > 0 {
        let ghost w0 = words@;
        let word = cur;
        words.push(word);
        proof {
            assert(fields_view(words@) =~= fields_view(w0).push(word@));
        }
    }
    words
}

impl Position {
    /// Reads a position from a FEN record whose fields stand apart by ASCII
    /// whitespace.
    pub fn from_fen(s: &str) -> (r: Result<Self, FenError>)
        ensures
            fen_matches(r, fen_result(ascii_words(s@))),
            r is Ok ==> crate::play::playable(r->Ok_0),
            forall|n: nat| r is Ok && ascii_words(s@).len() >= 5 && #[trigger] decimal_text(n) == ascii_words(s@)[4] ==> n <= 140 && r->Ok_0.halfmove_value() == n,
            forall|n: nat| r is Ok && ascii_words(s@).len() >= 6 && #[trigger] decimal_text(n) == ascii_words(s@)[5] ==> r->Ok_0.fullmove_value() == if n == 0 {
                1
            } else {
                n
            },
            r is Ok && ascii_words(s@).len() < 5 ==> r->Ok_0.halfmove_value() == 0,
            r is Ok && ascii_words(s@).len() < 6 ==> r->Ok_0.fullmove_value() == 1,
    {
        let cs = str_chars(s);
        let parts = split_words(&cs);
        let r = read_fen(&parts);
        proof {
            if r is Ok {
                crate::play::lemma_read_playable(r, ascii_words(s@));
                assert forall|n: nat| r is Ok && ascii_words(s@).len() >= 5 && #[trigger] decimal_text(n) == ascii_words(s@)[4] implies n <= 140 && r->Ok_0.halfmove_value() == n by {
                    crate::roundtrip::lemma_fen_counters(ascii_words(s@), r, n);
                }
                assert forall|n: nat| r is Ok && ascii_words(s@).len() >= 6 && #[trigger] decimal_text(n) == ascii_words(s@)[5] implies r->Ok_0.fullmove_value() == if n == 0 {
                    1
                } else {
                    n
                } by {
                    crate::roundtrip::lemma_fen_counters(ascii_words(s@), r, n);
                }
                crate::roundtrip::lemma_fen_counters(ascii_words(s@), r, 0);
            }
        }
        r
    }
}

impl std::str::FromStr for Position {
    type Err = FenError;

    /// Reads a position from a FEN record, as `Position::from_fen` does.
    fn from_str(s: &str) -> (r: Result<Self, FenError>)
        ensures
            fen_matches(r, fen_result(ascii_words(s@))),
            r is Ok ==> crate::play::playable(r->Ok_0),
            forall|n: nat| r is Ok && ascii_words(s@).len() >= 5 && #[trigger] decimal_text(n) == ascii_words(s@)[4] ==> n <= 140 && r->Ok_0.halfmove_value() == n,
            forall|n: nat| r is Ok && ascii_words(s@).len() >= 6 && #[trigger] decimal_text(n) == ascii_words(s@)[5] ==> r->Ok_0.fullmove_value() == if n == 0 {
                1
            } else {
                n
            },
            r is Ok && ascii_words(s@).len() < 5 ==> r->Ok_0.halfmove_value() == 0,
            r is Ok && ascii_words(s@).len() < 6 ==> r->Ok_0.fullmove_value() == 1,
    {
        Self::from_fen(s)
    }
}

/// The character of the decimal digit `d`.
pub open spec fn digit_char(d: int) -> char {
    (d + 48) as char
}

/// The decimal digits of `n`, without leading zeros.
pub open spec fn decimal_text(n: nat) -> Seq<char>
    decreases n,
{
    if n < 10 {
        seq![digit_char(n as int)]
    } else {
        decimal_text(n / 10) + seq![digit_char((n % 10) as int)]
    }
}

/// How many empty squares of rank `rank` follow from file `file` on, up to
/// the first piece.
pub open spec fn empty_run(board: Seq<Option<Piece>>, rank: int, file: int) -> int
    decreases 8 - file,
{
    if file >= 8 || board[8 * rank + file] is Some {
        0
    } else {
        1 + empty_run(board, rank, file + 1)
    }
}

/// The text of rank `rank` from file `file` on: each piece's letter, and for
/// each stretch of empty squares their number.
pub open spec fn row_text(board: Seq<Option<Piece>>, rank: int, file: int) -> Seq<char>
    decreases 8 - file,
{
    if file >= 8 || file < 0 {
        Seq::empty()
    } else if board[8 * rank + file] is Some {
        seq![board[8 * rank + file]->0.letter()] + row_text(board, rank, file + 1)
    } else {
        let next = file + if empty_run(board, rank, file) > 1 {
            empty_run(board, rank, file)
        } else {
            1
        };
        seq![digit_char(empty_run(board, rank, file))] + row_text(board, rank, if next > 8 {
            8
        } else {
            next
        })
    }
}

/// The text of the top `k` ranks, from the eighth down, with `/` between
/// them.
pub open spec fn rows_text(board: Seq<Option<Piece>>, k: int) -> Seq<char>
    decreases k,
{
    if k <= 0 {
        Seq::empty()
    } else {
        rows_text(board, k - 1) + row_text(board, 8 - k, 0) + if k < 8 {
            seq!['/']
        } else {
            Seq::empty()
        }
    }
}

/// The FEN record of `pos`: the piece placement, the side to move, no
/// castling or en passant field, the halfmove clock and the move number.
pub open spec fn fen_text(pos: Position) -> Seq<char> {
    rows_text(pos.board(), 8) + seq![' ', if pos.side() == Color::White {
        'w'
    } else {
        'b'
    }] + seq![' ', '-', ' ', '-', ' '] + decimal_text(pos.halfmove_value() as nat) + seq![' '] + decimal_text(pos.fullmove_value() as nat)
}

/// The character of the decimal digit `d`.
fn digit_to_char(d: u32) -> (r: char)
    requires
        d < 10,
    ensures
        r == digit_char(d as int),
{
    match d {
        0 => '0',
        1 => '1',
        2 => '2',
        3 => '3',
        4 => '4',
        5 => '5',
        6 => '6',
        7 => '7',
        8 => '8',
        _ => '9',
    }
}

/// Appends the decimal digits of `n`.
fn push_decimal(buf: &mut Vec<char>, n: u32)
    ensures
        final(buf)@ == old(buf)@ + decimal_text(n as nat),
    decreases n,
{
    if n < 10 {
        let c = digit_to_char(n);
        buf.push(c);
        proof {
            assert(final(buf)@ =~= old(buf)@ + decimal_text(n as nat));
        }
    } else {
        push_decimal(buf, n / 10);
        let c = digit_to_char(n % 10);
        buf.push(c);
        proof {
            assert(final(buf)@ =~= old(buf)@ + decimal_text(n as nat));
        }
    }
}

/// Over a stretch of empty squares, the run from its start is its length
/// and the run after it.
proof fn lemma_empty_run(board: Seq<Option<Piece>>, rank: int, start: int, j: int)
    requires
        0 <= start <= j <= 8,
        forall|f: int| start <= f < j ==> #[trigger] board[8 * rank + f] is None,
    ensures
        empty_run(board, rank, start) == (j - start) + empty_run(board, rank, j),
    decreases j - start,
{
    if start < j {
        lemma_empty_run(board, rank, start + 1, j);
    }
}

/// A piece on the square at `file` of rank `rank` is written as its letter.
proof fn lemma_row_piece(board: Seq<Option<Piece>>, rank: int, file: int)
    requires
        0 <= file < 8,
        board[8 * rank + file] is Some,
    ensures
        row_text(board, rank, file) == seq![board[8 * rank + file]->0.letter()] + row_text(board, rank, file + 1),
{
}

/// The empty squares from `start` to `end` of rank `rank`, with a piece or
/// the edge after them, are written as their number.
proof fn lemma_row_empty(board: Seq<Option<Piece>>, rank: int, start: int, end: int)
    requires
        0 <= start <= end < 8,
        forall|f: int| start <= f <= end ==> #[trigger] board[8 * rank + f] is None,
        end == 7 || board[8 * rank + end + 1] is Some,
    ensures
        row_text(board, rank, start) == seq![digit_char(end - start + 1)] + row_text(board, rank, end + 1),
{
    lemma_empty_run(board, rank, start, end + 1);
    assert(empty_run(board, rank, end + 1) == 0);
}

impl Position {
    /// The FEN record of the position.
    pub fn fen(&self) -> (r: String)
        requires
            self.wf(),
        ensures
            r@ == fen_text(*self),
    {
        let mut buf: Vec<char> = Vec::new();
        let mut rank: usize = 8;
        let ghost board = self.board();
        proof {
            assert(buf@ =~= rows_text(board, 0));
        }
        while rank > 0
            invariant
                rank <= 8,
                board == self.board(),
                board.len() == 64,
                buf@ == rows_text(board, 8 - rank),
            decreases rank,
        {
            rank = rank - 1;
            let ghost base = buf@;
            let mut file: usize = 0;
            proof {
                assert(base + row_text(board, rank as int, 0) =~= (base + Seq::<char>::empty()) + row_text(board, rank as int, 0));
            }
            while file < 8
                invariant
                    rank < 8,
                    file <= 8,
                    board == self.board(),
                    board.len() == 64,
                    buf@ + row_text(board, rank as int, file as int) == base + row_text(board, rank as int, 0),
                decreases 8 - file,
            {
                let sq = crate::core_types::Square::from_file_rank(file, rank).unwrap();
                let ghost start = file as int;

                match self.piece_on(sq) {
                    Some(piece) => {
                        let c = piece.to_char();
                        proof {
                            lemma_row_piece(board, rank as int, start);
                        }
                        buf.push(c);
                        proof {
                            assert(buf@ + row_text(board, rank as int, start + 1) =~= base + row_text(board, rank as int, 0));
                        }
                    },
                    None => {
                        let mut empty_squares: u32 = 1;

                        while file < 7 && self.piece_on(crate::core_types::Square::from_file_rank(file + 1, rank).unwrap()).is_none()
                            invariant
                                rank < 8,
                                0 <= start <= file < 8,
                                empty_squares == file - start + 1,
                                board == self.board(),
                                forall|f: int| start <= f <= file ==> #[trigger] board[8 * rank + f] is None,
                            decreases 8 - file,
                        {
                            empty_squares = empty_squares + 1;
                            file = file + 1;
                        }
                        proof {
                            lemma_row_empty(board, rank as int, start, file as int);
                        }
                        let c = digit_to_char(empty_squares);
                        let ghost before = buf@;
                        buf.push(c);
                        proof {
                            assert(buf@ + row_text(board, rank as int, file as int + 1) =~= before + row_text(board, rank as int, start));
                        }
                    },
                }

                file = file + 1;
            }
            proof {
                assert(row_text(board, rank as int, 8) =~= Seq::<char>::empty());
                assert(buf@ =~= base + row_text(board, rank as int, 0));
            }

            if rank > 0 {
                buf.push('/');
            }
            proof {
                assert(buf@ =~= rows_text(board, 8 - rank));
            }
        }

        match self.stm() {
            Color::White => {
                buf.push(' ');
                buf.push('w');
            },
            Color::Black => {
                buf.push(' ');
                buf.push('b');
            },
        }

        buf.push(' ');
        buf.push('-');
        buf.push(' ');
        buf.push('-');
        buf.push(' ');
        push_decimal(&mut buf, self.halfmove() as u32);
        buf.push(' ');
        push_decimal(&mut buf, self.fullmove());
        proof {
            assert(buf@ =~= fen_text(*self));
        }

        crate::text::string_from_chars(buf)
    }
}

} // verus!
