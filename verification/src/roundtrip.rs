//! A position written in FEN reads back as itself.
use crate::core_types::{file_of, rank_of, Piece};
use crate::fen::{
    count_char, decimal_text, decimal_value, digit_char, digit_value, empty_board, empty_run,
    count_occupied, is_ascii_space, is_digit, letter_piece, parse_unsigned, row_text, rows_text, scan_board,
    unsigned_digits, words_from, ascii_words, count_piece, fen_result, fen_text,
    fullmove_field, halfmove_field, king_attacked, king_on, lemma_count_occupied,
    lemma_occupancy_bits, occupancy, fen_matches,
};
use crate::attacks::piece_attack;
use crate::bitboard::{has_bit, popcount_spec};
use crate::core_types::Color;
use crate::legality::{exposes_king, follows, lemma_legal_move_safe};
use crate::shatranjmove::{packed_from, packed_to};
use crate::position::{FenError, Position};
use vstd::prelude::*;

verus! {

/// The squares that a scan of the piece placement has read when it stands in
/// row `r` (counted from the top) at file `f`, as `board` has them; the rest
/// empty.
pub open spec fn partial(board: Seq<Option<Piece>>, r: int, f: int) -> Seq<Option<Piece>> {
    Seq::new(64, |s: int| if 7 - rank_of(s) < r || (7 - rank_of(s) == r && file_of(s) < f) {
        board[s]
    } else {
        None
    })
}

/// The square at file `f` of rank `rank`.
proof fn lemma_square_at(rank: int, f: int)
    requires
        0 <= rank < 8,
        0 <= f < 8,
    ensures
        0 <= 8 * rank + f < 64,
        rank_of(8 * rank + f) == rank,
        file_of(8 * rank + f) == f,
{
    vstd::arithmetic::div_mod::lemma_fundamental_div_mod_converse(8 * rank + f, 8, rank, f);
}

/// An empty run stays on the rank, covers only empty squares, and ends at
/// the edge or at a piece.
proof fn lemma_empty_run_bounds(board: Seq<Option<Piece>>, rank: int, f: int)
    requires
        0 <= f <= 8,
    ensures
        0 <= empty_run(board, rank, f) <= 8 - f,
        forall|g: int| f <= g < f + empty_run(board, rank, f) ==> #[trigger] board[8 * rank + g] is None,
        f + empty_run(board, rank, f) == 8 || board[8 * rank + f + empty_run(board, rank, f)] is Some,
    decreases 8 - f,
{
    if f < 8 && board[8 * rank + f] is None {
        lemma_empty_run_bounds(board, rank, f + 1);
    }
}

/// The letter of a piece is neither a digit nor `/`, and reads back as the
/// piece.
proof fn lemma_letter(p: Piece)
    ensures
        !is_digit(p.letter()),
        p.letter() != '/',
        letter_piece(p.letter()) == Some(p),
{
    assert forall|q: Piece| #[trigger] q.letter() == p.letter() implies q == p by {}
}

/// Scanning the text of the rest of a rank places its pieces and ends the
/// rank at its eighth file.
proof fn lemma_scan_row(board: Seq<Option<Piece>>, cs: Seq<char>, i: int, r: int, f: int)
    requires
        board.len() == 64,
        0 <= r < 8,
        0 <= f <= 8,
        0 <= i,
        i + row_text(board, 7 - r, f).len() <= cs.len(),
        cs.subrange(i, i + row_text(board, 7 - r, f).len()) == row_text(board, 7 - r, f),
    ensures
        scan_board(cs, i, r, f, partial(board, r, f)) == scan_board(cs, i + row_text(board, 7 - r, f).len(), r, 8, partial(board, r, 8)),
    decreases 8 - f,
{
    let rank = 7 - r;
    let t = row_text(board, rank, f);
    if f < 8 {
        let sq = 8 * rank + f;
        lemma_square_at(rank, f);
        assert(cs[i] == t[0]);
        if board[sq] is Some {
            let p = board[sq]->0;
            lemma_letter(p);
            let rest = row_text(board, rank, f + 1);
            assert(t == seq![p.letter()] + rest);
            assert(partial(board, r, f).update(sq, Some(p)) =~= partial(board, r, f + 1)) by {
                assert forall|s: int| 0 <= s < 64 implies #[trigger] partial(board, r, f).update(sq, Some(p))[s] == partial(board, r, f + 1)[s] by {
                    crate::attacks::lemma_square_coords(s, sq);
                }
            }
            assert(cs.subrange(i + 1, i + 1 + rest.len()) =~= rest) by {
                assert forall|j: int| 0 <= j < rest.len() implies #[trigger] cs.subrange(i + 1, i + 1 + rest.len())[j] == rest[j] by {
                    assert(cs[i + 1 + j] == t[1 + j]);
                }
            }
            lemma_scan_row(board, cs, i + 1, r, f + 1);
        } else {
            lemma_empty_run_bounds(board, rank, f);
            let run = empty_run(board, rank, f);
            let next = f + run;
            let rest = row_text(board, rank, next);
            assert(t == seq![digit_char(run)] + rest);
            assert(is_digit(digit_char(run)) && digit_value(digit_char(run)) == run);
            assert(partial(board, r, f) =~= partial(board, r, next)) by {
                assert forall|s: int| 0 <= s < 64 implies #[trigger] partial(board, r, f)[s] == partial(board, r, next)[s] by {
                    if 7 - rank_of(s) == r && f <= file_of(s) < next {
                        assert(s == 8 * rank + file_of(s));
                        assert(board[8 * rank + file_of(s)] is None);
                    }
                }
            }
            assert(cs.subrange(i + 1, i + 1 + rest.len()) =~= rest) by {
                assert forall|j: int| 0 <= j < rest.len() implies #[trigger] cs.subrange(i + 1, i + 1 + rest.len())[j] == rest[j] by {
                    assert(cs[i + 1 + j] == t[1 + j]);
                }
            }
            lemma_scan_row(board, cs, i + 1, r, next);
        }
    }
}

/// The text of the top ranks begins the text of more of them.
proof fn lemma_rows_prefix(board: Seq<Option<Piece>>, j: int, n: int)
    requires
        0 <= j <= n,
    ensures
        rows_text(board, j).len() <= rows_text(board, n).len(),
        rows_text(board, n).subrange(0, rows_text(board, j).len() as int) == rows_text(board, j),
    decreases n - j,
{
    if j < n {
        lemma_rows_prefix(board, j, n - 1);
        let a = rows_text(board, n - 1);
        let b = rows_text(board, n);
        assert(b.subrange(0, a.len() as int) =~= a);
        assert(b.subrange(0, rows_text(board, j).len() as int) =~= a.subrange(0, rows_text(board, j).len() as int));
    } else {
        assert(rows_text(board, n).subrange(0, rows_text(board, n).len() as int) =~= rows_text(board, n));
    }
}

/// Scanning the whole piece placement from the start of row `k` reads the
/// rest of the board.
proof fn lemma_scan_rows(board: Seq<Option<Piece>>, k: int)
    requires
        board.len() == 64,
        0 <= k < 8,
    ensures
        scan_board(rows_text(board, 8), rows_text(board, k).len() as int, k, 0, partial(board, k, 0)) == Ok::<Seq<Option<Piece>>, crate::position::FenError>(board),
    decreases 8 - k,
{
    let cs = rows_text(board, 8);
    let i = rows_text(board, k).len() as int;
    let row = row_text(board, 7 - k, 0);
    let next = rows_text(board, k + 1);
    lemma_rows_prefix(board, k + 1, 8);
    assert(next == rows_text(board, k) + row + if k + 1 < 8 {
        seq!['/']
    } else {
        Seq::<char>::empty()
    });
    assert(cs.subrange(i, i + row.len()) =~= row) by {
        assert forall|j: int| 0 <= j < row.len() implies #[trigger] cs.subrange(i, i + row.len())[j] == row[j] by {
            assert(cs[i + j] == next[i + j]);
        }
    }
    lemma_scan_row(board, cs, i, k, 0);
    let e = i + row.len();
    if k == 7 {
        assert(next =~= cs);
        assert(e == cs.len());
        assert(partial(board, k, 8) =~= board);
    } else {
        assert(cs[e] == next[e]);
        assert(cs[e] == '/');
        assert(partial(board, k, 8) =~= partial(board, k + 1, 0));
        assert(next.len() == e + 1);
        lemma_scan_rows(board, k + 1);
    }
}

/// The piece placement written for a board reads back as that board.
pub proof fn lemma_scan_placement(board: Seq<Option<Piece>>)
    requires
        board.len() == 64,
    ensures
        scan_board(rows_text(board, 8), 0, 0, 0, empty_board()) == Ok::<Seq<Option<Piece>>, crate::position::FenError>(board),
{
    lemma_scan_rows(board, 0);
    assert(partial(board, 0, 0) =~= empty_board());
}

/// Counting over two texts one after the other.
proof fn lemma_count_concat(a: Seq<char>, b: Seq<char>, c: char)
    ensures
        count_char(a + b, c) == count_char(a, c) + count_char(b, c),
    decreases b.len(),
{
    if b.len() == 0 {
        assert(a + b =~= a);
    } else {
        assert((a + b).drop_last() =~= a + b.drop_last());
        lemma_count_concat(a, b.drop_last(), c);
    }
}

/// A text without `c` counts none of it.
proof fn lemma_count_none(s: Seq<char>, c: char)
    requires
        forall|j: int| 0 <= j < s.len() ==> #[trigger] s[j] != c,
    ensures
        count_char(s, c) == 0,
    decreases s.len(),
{
    if s.len() > 0 {
        lemma_count_none(s.drop_last(), c);
    }
}

/// The text of a rank holds letters and digits only, and something when
/// any file is left.
proof fn lemma_row_chars(board: Seq<Option<Piece>>, rank: int, f: int)
    requires
        0 <= f <= 8,
    ensures
        forall|j: int| 0 <= j < row_text(board, rank, f).len() ==> #[trigger] row_text(board, rank, f)[j] != '/' && !is_ascii_space(row_text(board, rank, f)[j]),
        f < 8 ==> row_text(board, rank, f).len() > 0,
    decreases 8 - f,
{
    if f < 8 {
        let t = row_text(board, rank, f);
        if board[8 * rank + f] is Some {
            let p = board[8 * rank + f]->0;
            lemma_row_chars(board, rank, f + 1);
            assert forall|j: int| 0 <= j < t.len() implies #[trigger] t[j] != '/' && !is_ascii_space(t[j]) by {
                if j > 0 {
                    assert(t[j] == row_text(board, rank, f + 1)[j - 1]);
                }
            }
        } else {
            lemma_empty_run_bounds(board, rank, f);
            let run = empty_run(board, rank, f);
            lemma_row_chars(board, rank, f + run);
            assert forall|j: int| 0 <= j < t.len() implies #[trigger] t[j] != '/' && !is_ascii_space(t[j]) by {
                if j > 0 {
                    assert(t[j] == row_text(board, rank, f + run)[j - 1]);
                }
            }
        }
    }
}

/// The text of the top `k` ranks has a `/` between each two, no
/// whitespace, and something in it.
proof fn lemma_rows_chars(board: Seq<Option<Piece>>, k: int)
    requires
        0 <= k <= 8,
    ensures
        count_char(rows_text(board, k), '/') == if k < 8 { k } else { 7 },
        forall|j: int| 0 <= j < rows_text(board, k).len() ==> !is_ascii_space(#[trigger] rows_text(board, k)[j]),
        k > 0 ==> rows_text(board, k).len() > 0,
    decreases k,
{
    if k > 0 {
        lemma_rows_chars(board, k - 1);
        let a = rows_text(board, k - 1);
        let row = row_text(board, 8 - k, 0);
        let sep = if k < 8 {
            seq!['/']
        } else {
            Seq::<char>::empty()
        };
        lemma_row_chars(board, 8 - k, 0);
        lemma_count_none(row, '/');
        lemma_count_concat(a, row, '/');
        lemma_count_concat(a + row, sep, '/');
        if k < 8 {
            assert(count_char(sep, '/') == 1) by {
                assert(sep.drop_last() =~= Seq::<char>::empty());
            }
        } else {
            assert(count_char(sep, '/') == 0);
        }
        let t = rows_text(board, k);
        assert(t == a + row + sep);
        assert forall|j: int| 0 <= j < t.len() implies !is_ascii_space(#[trigger] t[j]) by {
            if j < a.len() {
                assert(t[j] == a[j]);
            } else if j < a.len() + row.len() {
                assert(t[j] == row[j - a.len()]);
            } else {
                assert(t[j] == sep[j - a.len() - row.len()]);
            }
        }
    }
}

/// The decimal text of a number is one or more digits worth the number.
proof fn lemma_decimal(n: nat)
    ensures
        decimal_text(n).len() > 0,
        forall|j: int| 0 <= j < decimal_text(n).len() ==> is_digit(#[trigger] decimal_text(n)[j]),
        decimal_value(decimal_text(n)) == n,
    decreases n,
{
    if n < 10 {
        assert(decimal_text(n).drop_last() =~= Seq::<char>::empty());
        assert(decimal_text(n).last() == digit_char(n as int));
        assert(digit_value(digit_char(n as int)) == n);
        assert(decimal_value(decimal_text(n)) == decimal_value(Seq::<char>::empty()) * 10 + n);
    } else {
        lemma_decimal(n / 10);
        let t = decimal_text(n);
        let a = decimal_text(n / 10);
        assert(t.drop_last() =~= a);
        assert(t.last() == digit_char((n % 10) as int));
        assert(digit_value(digit_char((n % 10) as int)) == n % 10);
        assert forall|j: int| 0 <= j < t.len() implies is_digit(#[trigger] t[j]) by {
            if j < a.len() {
                assert(t[j] == a[j]);
            }
        }
        vstd::arithmetic::div_mod::lemma_fundamental_div_mod(n as int, 10);
        assert(decimal_value(t) == decimal_value(a) * 10 + n % 10);
    }
}

/// A number written in decimal reads back as itself.
proof fn lemma_parse_decimal(n: nat, max: int)
    ensures
        parse_unsigned(decimal_text(n), max) == if n <= max {
            Some(n as int)
        } else {
            None
        },
{
    lemma_decimal(n);
    assert(is_digit(decimal_text(n)[0]));
    assert(unsigned_digits(decimal_text(n)) == decimal_text(n));
}

/// Reading the characters of a word that holds no whitespace adds them to
/// the word being read.
proof fn lemma_words_field(cs: Seq<char>, i: int, cur: Seq<char>, words: Seq<Seq<char>>, w: Seq<char>)
    requires
        0 <= i,
        i + w.len() <= cs.len(),
        cs.subrange(i, i + w.len()) == w,
        forall|j: int| 0 <= j < w.len() ==> !is_ascii_space(#[trigger] w[j]),
    ensures
        words_from(cs, i, cur, words) == words_from(cs, i + w.len(), cur + w, words),
    decreases w.len(),
{
    if w.len() == 0 {
        assert(cur + w =~= cur);
    } else {
        assert(cs[i] == w[0]);
        let rest = w.drop_first();
        assert(cs.subrange(i + 1, i + 1 + rest.len()) =~= rest) by {
            assert forall|j: int| 0 <= j < rest.len() implies #[trigger] cs.subrange(i + 1, i + 1 + rest.len())[j] == rest[j] by {
                assert(cs[i + 1 + j] == w[1 + j]);
            }
        }
        lemma_words_field(cs, i + 1, cur.push(w[0]), words, rest);
        assert(cur.push(w[0]) + rest =~= cur + w);
    }
}

/// The words of `fields` written one after another with a space between
/// each two.
pub open spec fn join_words(fields: Seq<Seq<char>>) -> Seq<char>
    decreases fields.len(),
{
    if fields.len() == 0 {
        Seq::empty()
    } else if fields.len() == 1 {
        fields[0]
    } else {
        join_words(fields.drop_last()) + seq![' '] + fields.last()
    }
}

/// Reading a space after a word finishes the word.
proof fn lemma_words_sep(cs: Seq<char>, j: int, cur: Seq<char>, words: Seq<Seq<char>>)
    requires
        0 <= j < cs.len(),
        is_ascii_space(cs[j]),
        cur.len() > 0,
    ensures
        words_from(cs, j, cur, words) == words_from(cs, j + 1, Seq::empty(), words.push(cur)),
{
}

/// Reading one character that is not a space adds it to the word.
proof fn lemma_words_char(cs: Seq<char>, j: int, cur: Seq<char>, words: Seq<Seq<char>>)
    requires
        0 <= j < cs.len(),
        !is_ascii_space(cs[j]),
    ensures
        words_from(cs, j, cur, words) == words_from(cs, j + 1, cur.push(cs[j]), words),
{
}

/// The fields of a FEN record written with a space between each two read
/// back as those fields.
proof fn lemma_fen_words(r: Seq<char>, side: char, h: Seq<char>, f: Seq<char>)
    requires
        r.len() > 0,
        h.len() > 0,
        f.len() > 0,
        forall|j: int| 0 <= j < r.len() ==> !is_ascii_space(#[trigger] r[j]),
        forall|j: int| 0 <= j < h.len() ==> !is_ascii_space(#[trigger] h[j]),
        forall|j: int| 0 <= j < f.len() ==> !is_ascii_space(#[trigger] f[j]),
        !is_ascii_space(side),
    ensures
        ascii_words(r + seq![' ', side] + seq![' ', '-', ' ', '-', ' '] + h + seq![' '] + f) == seq![r, seq![side], seq!['-'], seq!['-'], h, f],
{
    let cs = r + seq![' ', side] + seq![' ', '-', ' ', '-', ' '] + h + seq![' '] + f;
    let n = r.len() as int;
    let e = Seq::<char>::empty();
    let w0 = Seq::<Seq<char>>::empty();
    assert(cs.subrange(0, n) =~= r);
    lemma_words_field(cs, 0, e, w0, r);
    assert(e + r =~= r);
    lemma_words_sep(cs, n, r, w0);
    let w1 = w0.push(r);
    lemma_words_char(cs, n + 1, e, w1);
    assert(e.push(side) =~= seq![side]);
    lemma_words_sep(cs, n + 2, seq![side], w1);
    let w2 = w1.push(seq![side]);
    lemma_words_char(cs, n + 3, e, w2);
    assert(e.push('-') =~= seq!['-']);
    lemma_words_sep(cs, n + 4, seq!['-'], w2);
    let w3 = w2.push(seq!['-']);
    lemma_words_char(cs, n + 5, e, w3);
    lemma_words_sep(cs, n + 6, seq!['-'], w3);
    let w4 = w3.push(seq!['-']);
    let hn = h.len() as int;
    assert(cs.subrange(n + 7, n + 7 + hn) =~= h);
    lemma_words_field(cs, n + 7, e, w4, h);
    assert(e + h =~= h);
    lemma_words_sep(cs, n + 7 + hn, h, w4);
    let w5 = w4.push(h);
    assert(cs.subrange(n + 8 + hn, n + 8 + hn + f.len()) =~= f);
    lemma_words_field(cs, n + 8 + hn, e, w5, f);
    assert(e + f =~= f);
    assert(cs.len() == n + 8 + hn + f.len());
    assert(w5.push(f) =~= seq![r, seq![side], seq!['-'], seq!['-'], h, f]);
}

/// A piece that stands on one square only is counted once.
proof fn lemma_count_unique(board: Seq<Option<Piece>>, p: Piece, k: int, n: int)
    requires
        0 <= k < 64,
        0 <= n <= 64,
        board[k] == Some(p),
        forall|s: int| 0 <= s < 64 && #[trigger] board[s] == Some(p) ==> s == k,
    ensures
        count_piece(board, p, n) == if k < n {
            1int
        } else {
            0int
        },
    decreases n,
{
    if n > 0 {
        lemma_count_unique(board, p, k, n - 1);
    }
}

/// The other king is exposed on the board exactly when it is in the
/// position.
pub proof fn lemma_king_attacked(pos: Position)
    requires
        pos.wf(),
    ensures
        king_attacked(pos.board(), pos.side()) == exposes_king(pos),
{
    let board = pos.board();
    let side = pos.side();
    let them = pos.them();
    assert(pos.king_ok(them));
    assert(king_on(board, them) == pos.king_square(them) as int);
    assert forall|s: int| 0 <= s < 64 implies #[trigger] has_bit(pos.occupied_bits(), s) == (board[s] is Some) by {
        crate::bitboard::lemma_bit_ops();
        assert(has_bit(pos.color_bits(Color::White), s) == pos.holds_color(s, Color::White));
        assert(has_bit(pos.color_bits(Color::Black), s) == pos.holds_color(s, Color::Black));
        if board[s] is Some {
            assert(board[s]->0.spec_color() == Color::White || board[s]->0.spec_color() == Color::Black);
        }
    }
    lemma_occupancy_bits(board, pos.occupied_bits());
    let kk = pos.king_square(them).index();
    if exposes_king(pos) {
        let a = choose|a: int| #[trigger] pos.attacks_from(a, side, kk, pos.occupied_bits());
        assert(board[a] is Some);
    }
    if king_attacked(board, side) {
        let a = choose|a: int| 0 <= a < 64 && #[trigger] board[a] is Some && board[a]->0.spec_color() == side
            && piece_attack(board[a]->0, a, king_on(board, side.opposite()), occupancy(board, 64));
        assert(pos.attacks_from(a, side, kk, pos.occupied_bits()));
    }
}

/// The FEN record of a position has six words: the piece placement, the
/// side to move, two `-` and the two counters.
pub proof fn lemma_fen_fields(pos: Position)
    requires
        pos.wf(),
    ensures
        ascii_words(fen_text(pos)) == seq![rows_text(pos.board(), 8), seq![if pos.side() == Color::White { 'w' } else { 'b' }], seq!['-'], seq!['-'], decimal_text(pos.halfmove_value() as nat), decimal_text(pos.fullmove_value() as nat)],
        ascii_words(fen_text(pos)).len() == 6,
{
    let b = pos.board();
    let r = rows_text(b, 8);
    let h = decimal_text(pos.halfmove_value() as nat);
    let f = decimal_text(pos.fullmove_value() as nat);
    let side = if pos.side() == Color::White {
        'w'
    } else {
        'b'
    };
    lemma_rows_chars(b, 8);
    lemma_decimal(pos.halfmove_value() as nat);
    lemma_decimal(pos.fullmove_value() as nat);
    assert forall|j: int| 0 <= j < h.len() implies !is_ascii_space(#[trigger] h[j]) by {
        assert(is_digit(h[j]));
    }
    assert forall|j: int| 0 <= j < f.len() implies !is_ascii_space(#[trigger] f[j]) by {
        assert(is_digit(f[j]));
    }
    lemma_fen_words(r, side, h, f);
    assert(fen_text(pos) == r + seq![' ', side] + seq![' ', '-', ' ', '-', ' '] + h + seq![' '] + f);
}

/// Counting the pieces after a piece moves from `f` to `t`: one fewer on
/// `f`, one more on `t` when it was empty.
proof fn lemma_count_after(board: Seq<Option<Piece>>, f: int, t: int, p: Piece, n: int)
    requires
        board.len() == 64,
        0 <= f < 64,
        0 <= t < 64,
        f != t,
        board[f] is Some,
        0 <= n <= 64,
    ensures
        count_occupied(board.update(f, None).update(t, Some(p)), n) == count_occupied(board, n) - (if f < n { 1int } else { 0int }) + (if t < n && board[t] is None { 1int } else { 0int }),
    decreases n,
{
    if n > 0 {
        lemma_count_after(board, f, t, p, n - 1);
    }
}

/// The squares with a piece of a well-formed position are those of its
/// board, and there are as many as its board holds.
pub proof fn lemma_occupied_count(pos: Position)
    requires
        pos.wf(),
    ensures
        popcount_spec(pos.occupied_bits()) == count_occupied(pos.board(), 64),
{
    let b = pos.board();
    assert forall|s: int| 0 <= s < 64 implies #[trigger] has_bit(pos.occupied_bits(), s) == (b[s] is Some) by {
        crate::bitboard::lemma_bit_ops();
        assert(has_bit(pos.color_bits(Color::White), s) == pos.holds_color(s, Color::White));
        assert(has_bit(pos.color_bits(Color::Black), s) == pos.holds_color(s, Color::Black));
        if b[s] is Some {
            assert(b[s]->0.spec_color() == Color::White || b[s]->0.spec_color() == Color::Black);
        }
    }
    lemma_count_occupied(b, pos.occupied_bits(), 64);
}

/// A legal move keeps a position readable from FEN but for its halfmove
/// clock: it adds no piece, and leaves no king to capture.
pub proof fn lemma_move_keeps_readable(pos: Position, m: u16, next: Position)
    requires
        pos.wf(),
        pos.legal_move(m),
        follows(next, pos, m),
    ensures
        popcount_spec(next.occupied_bits()) <= popcount_spec(pos.occupied_bits()),
        !exposes_king(next),
{
    pos.lemma_legal_basics(m);
    lemma_legal_move_safe(pos, m, next);
    lemma_occupied_count(pos);
    lemma_occupied_count(next);
    lemma_count_after(pos.board(), packed_from(m), packed_to(m), pos.arriving_piece(m), 64);
}

/// A position written in FEN reads back as its board, side to move and
/// counters, when it can be read at all: at most 32 pieces, a halfmove clock
/// of at most 140, a move number of at least 1, and the side to move unable
/// to capture the other king.
pub proof fn lemma_fen_round_trip(pos: Position)
    requires
        pos.wf(),
        !exposes_king(pos),
        popcount_spec(pos.occupied_bits()) <= 32,
        pos.halfmove_value() <= 140,
        pos.fullmove_value() >= 1,
    ensures
        fen_result(ascii_words(fen_text(pos))) == Ok::<(Seq<Option<Piece>>, Color, u16, u32), FenError>((pos.board(), pos.side(), pos.halfmove_value(), pos.fullmove_value())),
{
    let b = pos.board();
    let r = rows_text(b, 8);
    let h = decimal_text(pos.halfmove_value() as nat);
    let f = decimal_text(pos.fullmove_value() as nat);
    let side = if pos.side() == Color::White {
        'w'
    } else {
        'b'
    };
    lemma_fen_fields(pos);
    let parts = seq![r, seq![side], seq!['-'], seq!['-'], h, f];
    lemma_rows_chars(b, 8);
    lemma_decimal(pos.halfmove_value() as nat);
    lemma_decimal(pos.fullmove_value() as nat);
    lemma_scan_placement(b);
    assert(pos.king_ok(Color::White));
    assert(pos.king_ok(Color::Black));
    lemma_count_unique(b, Piece::WhiteKing, pos.king_square(Color::White) as int, 64);
    lemma_count_unique(b, Piece::BlackKing, pos.king_square(Color::Black) as int, 64);
    assert forall|s: int| 0 <= s < 64 implies #[trigger] has_bit(pos.occupied_bits(), s) == (b[s] is Some) by {
        crate::bitboard::lemma_bit_ops();
        assert(has_bit(pos.color_bits(Color::White), s) == pos.holds_color(s, Color::White));
        assert(has_bit(pos.color_bits(Color::Black), s) == pos.holds_color(s, Color::Black));
        if b[s] is Some {
            assert(b[s]->0.spec_color() == Color::White || b[s]->0.spec_color() == Color::Black);
        }
    }
    lemma_count_occupied(b, pos.occupied_bits(), 64);
    lemma_parse_decimal(pos.halfmove_value() as nat, 0xFFFF);
    lemma_parse_decimal(pos.fullmove_value() as nat, 0xFFFF_FFFF);
    assert(parts[4] == h && parts[5] == f && parts[0] == r && parts[1] == seq![side]);
    assert(halfmove_field(parts) == Ok::<u16, FenError>(pos.halfmove_value()));
    assert(fullmove_field(parts) == Ok::<u32, FenError>(pos.fullmove_value()));
    if pos.side() == Color::White {
        assert(parts[1] =~= seq!['w']);
    } else {
        assert(parts[1] =~= seq!['b']);
        assert(parts[1] != seq!['w']) by {
            assert(parts[1][0] != seq!['w'][0]);
        }
    }
    lemma_king_attacked(pos);
}

/// Reading back the FEN record of a position, as `Position::from_fen` does
/// with what `Position::fen` writes, gives the position itself, when it can
/// be read at all.
pub proof fn lemma_fen_reads_back(pos: Position, r: Result<Position, FenError>)
    requires
        pos.wf(),
        !exposes_king(pos),
        popcount_spec(pos.occupied_bits()) <= 32,
        pos.halfmove_value() <= 140,
        pos.fullmove_value() >= 1,
        fen_matches(r, fen_result(ascii_words(fen_text(pos)))),
    ensures
        r == Ok::<Position, FenError>(pos),
{
    lemma_fen_round_trip(pos);
    let q = r->Ok_0;
    Position::lemma_alike_equal(q, pos);
}

/// The halfmove clock and the move number that a FEN record writes in
/// decimal are those of the position read from it, and a clock above 140
/// is refused; a record that leaves them out gives a clock of 0 and a move
/// number of 1, and a move number of 0 reads as 1.
pub proof fn lemma_fen_counters(parts: Seq<Seq<char>>, r: Result<Position, FenError>, n: nat)
    requires
        fen_matches(r, fen_result(parts)),
        r is Ok,
    ensures
        parts.len() < 5 ==> r->Ok_0.halfmove_value() == 0,
        parts.len() < 6 ==> r->Ok_0.fullmove_value() == 1,
        parts.len() >= 5 && parts[4] == decimal_text(n) ==> n <= 140 && r->Ok_0.halfmove_value() == n,
        parts.len() >= 6 && parts[5] == decimal_text(n) ==> n <= u32::MAX && r->Ok_0.fullmove_value() == if n == 0 {
            1
        } else {
            n
        },
{
    lemma_parse_decimal(n, 0xFFFF);
    lemma_parse_decimal(n, 0xFFFF_FFFF);
}

/// A FEN record read without fault names the side to move in its second
/// field: `w` for White, `b` for Black, and nothing else.
pub proof fn lemma_fen_side(parts: Seq<Seq<char>>, r: Result<Position, FenError>)
    requires
        fen_matches(r, fen_result(parts)),
        r is Ok,
    ensures
        parts.len() >= 2,
        parts[1] == seq!['w'] || parts[1] == seq!['b'],
        (r->Ok_0.side() == Color::White) == (parts[1] == seq!['w']),
{
}

/// A FEN record of fewer than two fields or of more than six is refused
/// for that, whatever its fields hold.
pub proof fn lemma_fen_part_count(parts: Seq<Seq<char>>, r: Result<Position, FenError>)
    requires
        fen_matches(r, fen_result(parts)),
    ensures
        parts.len() < 2 ==> r == Err::<Position, FenError>(FenError::TooFewParts),
        parts.len() > 6 ==> r == Err::<Position, FenError>(FenError::TooManyParts),
{
}

} // verus!
