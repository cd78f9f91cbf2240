//! Counting the leaves of the tree of legal moves.
use crate::bitboard::{has_bit, lemma_bits_ext};
use crate::core_types::{Color, PieceType};
use crate::legality::{exposes_king, follows, lemma_legal_move_safe, lemma_no_king_capture};
use crate::movegen::{
    appended, count, generate_all, legal_move_count, lemma_legal_set_finite, legal_set, move_list_get, move_list_len,
    move_list_moves, new_move_list,
};
use crate::position::Position;
use crate::shatranjmove::Move;
use vstd::prelude::*;

verus! {

/// A well-formed position with the board `board`, `side` to move and the
/// counters `halfmove` and `fullmove`; all such positions are alike.
pub open spec fn position_of(board: Seq<Option<crate::core_types::Piece>>, side: Color, halfmove: int, fullmove: int) -> Position {
    choose|r: Position| r.wf() && r.board() == board && r.side() == side && r.halfmove_value() == halfmove && r.fullmove_value() == fullmove
}

/// The halfmove clock after the move `m`.
pub open spec fn halfmove_after(pos: Position, m: u16) -> int {
    if pos.resets_halfmove(m) {
        0
    } else {
        pos.halfmove_value() + 1
    }
}

/// The halfmove clock after a move: 0 after a capture, 0 after a pawn move,
/// and one more than before after any other move.
pub proof fn lemma_halfmove_after(pos: Position, m: u16)
    ensures
        pos.board()[crate::shatranjmove::packed_to(m)] is Some ==> halfmove_after(pos, m) == 0,
        pos.board()[crate::shatranjmove::packed_from(m)]->0.spec_piece_type() == PieceType::Pawn ==> halfmove_after(pos, m) == 0,
        pos.board()[crate::shatranjmove::packed_to(m)] is None && pos.board()[crate::shatranjmove::packed_from(m)]->0.spec_piece_type()
            != PieceType::Pawn ==> halfmove_after(pos, m) == pos.halfmove_value() + 1,
{
}

/// The move number after the move `m`.
pub open spec fn fullmove_after(pos: Position, m: u16) -> int {
    if pos.side() == Color::Black {
        pos.fullmove_value() + 1
    } else {
        pos.fullmove_value() as int
    }
}

/// The position that the move `m` leads to.
pub open spec fn next_position(pos: Position, m: u16) -> Position {
    position_of(pos.board_after(m), pos.them(), halfmove_after(pos, m), fullmove_after(pos, m))
}

/// The counters stay in range after the move `m`.
pub open spec fn counters_fit(pos: Position, m: u16) -> bool {
    &&& halfmove_after(pos, m) <= u16::MAX
    &&& fullmove_after(pos, m) <= u32::MAX
}

/// The number of leaves of the tree of legal moves `depth` plies deep.
pub open spec fn perft_count(pos: Position, depth: int) -> nat
    decreases depth, 8193int,
{
    if depth <= 0 {
        1
    } else if depth == 1 {
        legal_set(pos).len()
    } else {
        proof {
            lemma_legal_set_finite(pos);
        }
        children_count(pos, legal_set(pos), depth)
    }
}

/// The leaves, `depth` plies deep, under the moves `moves` of `pos`.
pub open spec fn children_count(pos: Position, moves: Set<u16>, depth: int) -> nat
    decreases depth, moves.len(),
{
    if !moves.finite() || moves.len() == 0 || depth <= 0 {
        0
    } else {
        let m = moves.choose();
        proof {
            vstd::set::axiom_set_choose_len(moves);
        }
        perft_count(next_position(pos, m), depth - 1) + children_count(pos, moves.remove(m), depth)
    }
}

/// The leaves, `depth` plies deep, under the moves of `moves` in turn.
pub open spec fn seq_count(pos: Position, moves: Seq<u16>, depth: int) -> nat
    decreases moves.len(),
{
    if moves.len() == 0 {
        0
    } else {
        seq_count(pos, moves.drop_last(), depth) + perft_count(next_position(pos, moves.last()), depth - 1)
    }
}

/// Every position of the tree of legal moves, `depth` plies deep, has at
/// most as many legal moves as a move list holds, and its counters stay in
/// range.
pub open spec fn perft_fits(pos: Position, depth: int) -> bool
    decreases depth,
{
    depth <= 0 || (legal_set(pos).len() <= 128 && (depth >= 2 ==> forall|m: u16|
        #[trigger] legal_set(pos).contains(m) ==> counters_fit(pos, m) && perft_fits(next_position(pos, m), depth - 1)))
}

/// Two well-formed positions with the same board and side to move agree in
/// all that the board decides.
pub proof fn lemma_wf_determined(p: Position, q: Position)
    requires
        p.wf(),
        q.wf(),
        p.board() == q.board(),
        p.side() == q.side(),
    ensures
        forall|c: Color| #[trigger] p.color_bits(c) == q.color_bits(c),
        forall|pt: PieceType| #[trigger] p.piece_bits(pt) == q.piece_bits(pt),
        forall|c: Color| #[trigger] p.king_square(c) == q.king_square(c),
        p.checker_bits() == q.checker_bits(),
        p.pinned_bits() == q.pinned_bits(),
        p.threat_bits() == q.threat_bits(),
        legal_set(p) == legal_set(q),
        exposes_king(p) == exposes_king(q),
{
    reveal(Position::attack_info_wf);
    assert forall|c: Color| #[trigger] p.color_bits(c) == q.color_bits(c) by {
        assert forall|s: int| 0 <= s < 64 implies #[trigger] has_bit(p.color_bits(c), s) == has_bit(q.color_bits(c), s) by {}
        lemma_bits_ext(p.color_bits(c), q.color_bits(c));
    }
    assert forall|pt: PieceType| #[trigger] p.piece_bits(pt) == q.piece_bits(pt) by {
        assert forall|s: int| 0 <= s < 64 implies #[trigger] has_bit(p.piece_bits(pt), s) == has_bit(q.piece_bits(pt), s) by {}
        lemma_bits_ext(p.piece_bits(pt), q.piece_bits(pt));
    }
    assert forall|c: Color| #[trigger] p.king_square(c) == q.king_square(c) by {
        assert(p.king_ok(c) && q.king_ok(c)) by {
            assert(c == Color::White || c == Color::Black);
        }
        assert(q.board()[p.king_square(c) as int] == Some(PieceType::King.spec_with_color(c)));
        crate::core_types::Square::lemma_from_int(p.king_square(c));
        crate::core_types::Square::lemma_from_int(q.king_square(c));
    }
    assert(p.occupied_bits() == q.occupied_bits());
    assert(p.our_king() == q.our_king());
    assert forall|t: int| 0 <= t < 64 implies #[trigger] has_bit(p.checker_bits(), t) == has_bit(q.checker_bits(), t) by {
        assert(has_bit(p.checker_bits(), t) == p.checker_at(t));
        assert(has_bit(q.checker_bits(), t) == q.checker_at(t));
    }
    lemma_bits_ext(p.checker_bits(), q.checker_bits());
    assert forall|t: int| 0 <= t < 64 implies #[trigger] has_bit(p.pinned_bits(), t) == has_bit(q.pinned_bits(), t) by {
        assert(has_bit(p.pinned_bits(), t) == p.pinned_at(t));
        assert(has_bit(q.pinned_bits(), t) == q.pinned_at(t));
        if p.pinned_at(t) {
            let r = choose|r: int| #[trigger] p.pins_at(r, t);
            assert(q.pins_at(r, t));
        }
        if q.pinned_at(t) {
            let r = choose|r: int| #[trigger] q.pins_at(r, t);
            assert(p.pins_at(r, t));
        }
    }
    lemma_bits_ext(p.pinned_bits(), q.pinned_bits());
    assert forall|t: int| 0 <= t < 64 implies #[trigger] has_bit(p.threat_bits(), t) == has_bit(q.threat_bits(), t) by {
        assert(has_bit(p.threat_bits(), t) == p.threat_at(t));
        assert(has_bit(q.threat_bits(), t) == q.threat_at(t));
        let occ = p.occupied_bits() ^ crate::bitboard::single(p.our_king());
        if p.threat_at(t) {
            let s = choose|s: int| #[trigger] p.attacks_from(s, p.them(), t, occ);
            assert(q.attacks_from(s, q.them(), t, occ));
        }
        if q.threat_at(t) {
            let s = choose|s: int| #[trigger] q.attacks_from(s, q.them(), t, occ);
            assert(p.attacks_from(s, p.them(), t, occ));
        }
    }
    lemma_bits_ext(p.threat_bits(), q.threat_bits());
    assert forall|m: u16| #[trigger] legal_set(p).contains(m) == legal_set(q).contains(m) by {
        reveal(Position::legal_move);
        reveal(Position::legal_pawn_move);
        reveal(Position::piece_reaches);
    }
    assert(legal_set(p) =~= legal_set(q));
    let kp = p.king_square(p.them()).index();
    if exposes_king(p) {
        let a = choose|a: int| #[trigger] p.attacks_from(a, p.side(), kp, p.occupied_bits());
        assert(q.attacks_from(a, q.side(), kp, q.occupied_bits()));
    }
    if exposes_king(q) {
        let a = choose|a: int| #[trigger] q.attacks_from(a, q.side(), kp, q.occupied_bits());
        assert(p.attacks_from(a, p.side(), kp, p.occupied_bits()));
    }
}

/// Positions alike in board, side to move and counters lead to the same
/// positions.
pub open spec fn alike(p: Position, q: Position) -> bool {
    &&& p.wf()
    &&& q.wf()
    &&& p.board() == q.board()
    &&& p.side() == q.side()
    &&& p.halfmove_value() == q.halfmove_value()
    &&& p.fullmove_value() == q.fullmove_value()
}

/// Alike positions have the same leaves under the same moves.
proof fn lemma_children_alike(p: Position, q: Position, moves: Set<u16>, depth: int)
    requires
        alike(p, q),
    ensures
        children_count(p, moves, depth) == children_count(q, moves, depth),
    decreases moves.len(),
{
    if moves.finite() && moves.len() > 0 && depth > 0 {
        let m = moves.choose();
        vstd::set::axiom_set_choose_len(moves);
        assert(next_position(p, m) == next_position(q, m));
        lemma_children_alike(p, q, moves.remove(m), depth);
    }
}

/// Alike positions have the same tree of legal moves.
pub proof fn lemma_perft_alike(p: Position, q: Position, depth: int)
    requires
        alike(p, q),
    ensures
        perft_count(p, depth) == perft_count(q, depth),
        perft_fits(p, depth) == perft_fits(q, depth),
        exposes_king(p) == exposes_king(q),
{
    lemma_wf_determined(p, q);
    lemma_children_alike(p, q, legal_set(p), depth);
    assert forall|m: u16| #[trigger] next_position(p, m) == next_position(q, m) by {}
    assert forall|m: u16| #[trigger] counters_fit(p, m) == counters_fit(q, m) by {}
}

/// Summing over a set may start with any of its moves.
proof fn lemma_children_remove(pos: Position, moves: Set<u16>, depth: int, x: u16)
    requires
        moves.finite(),
        moves.contains(x),
        depth > 0,
    ensures
        children_count(pos, moves, depth) == perft_count(next_position(pos, x), depth - 1) + children_count(pos, moves.remove(x), depth),
    decreases moves.len(),
{
    vstd::set::axiom_set_choose_len(moves);
    let y = moves.choose();
    if y != x {
        lemma_children_remove(pos, moves.remove(y), depth, x);
        lemma_children_remove(pos, moves.remove(x), depth, y);
        assert(moves.remove(y).remove(x) =~= moves.remove(x).remove(y));
    }
}

/// The leaves under a list of distinct moves are those under its set.
proof fn lemma_seq_count(pos: Position, moves: Seq<u16>, depth: int)
    requires
        moves.no_duplicates(),
        depth > 0,
    ensures
        seq_count(pos, moves, depth) == children_count(pos, moves.to_set(), depth),
    decreases moves.len(),
{
    if moves.len() == 0 {
        assert(moves.to_set() =~= Set::<u16>::empty());
    } else {
        let init = moves.drop_last();
        let x = moves.last();
        assert(init.no_duplicates()) by {
            assert forall|i: int, j: int| 0 <= i < init.len() && 0 <= j < init.len() && i != j implies init[i] != init[j] by {
                assert(init[i] == moves[i] && init[j] == moves[j]);
            }
        }
        lemma_seq_count(pos, init, depth);
        init.lemma_push_to_set_commute(x);
        assert(init.push(x) =~= moves);
        assert(!init.contains(x)) by {
            if init.contains(x) {
                let i = choose|i: int| 0 <= i < init.len() && init[i] == x;
                assert(moves[i] == moves[moves.len() - 1]);
            }
        }
        assert(moves.to_set().remove(x) =~= init.to_set());
        vstd::seq_lib::seq_to_set_is_finite(init);
        vstd::seq_lib::seq_to_set_is_finite(moves);
        lemma_children_remove(pos, moves.to_set(), depth, x);
    }
}

/// A prefix of the list counts no more leaves than the whole, and one move
/// more counts that move's leaves more.
proof fn lemma_seq_count_prefix(pos: Position, moves: Seq<u16>, depth: int, i: int)
    requires
        0 <= i < moves.len(),
    ensures
        seq_count(pos, moves.take(i + 1), depth) == seq_count(pos, moves.take(i), depth) + perft_count(next_position(pos, moves[i]), depth - 1),
        seq_count(pos, moves.take(i + 1), depth) <= seq_count(pos, moves, depth),
    decreases moves.len() - i,
{
    assert(moves.take(i + 1).drop_last() =~= moves.take(i));
    if i + 1 < moves.len() {
        lemma_seq_count_prefix(pos, moves, depth, i + 1);
    } else {
        assert(moves.take(i + 1) =~= moves);
    }
}

/// The number of leaves of the tree of legal moves `depth` plies deep.
fn do_perft(pos: &Position, depth: i32) -> (r: usize)
    requires
        pos.wf(),
        !exposes_king(*pos),
        perft_fits(*pos, depth as int),
        perft_count(*pos, depth as int) <= usize::MAX,
    ensures
        r == perft_count(*pos, depth as int),
    decreases depth,
{
    if depth <= 0 {
        return 1;
    }
    proof {
        lemma_legal_set_finite(*pos);
    }

    let mut moves = new_move_list();
    generate_all(&mut moves, pos);
    let ghost list = move_list_moves(moves);
    proof {
        assert(appended(list, 0) =~= list);
        assert(count(Seq::<u16>::empty()) == 0);
    }

    if depth == 1 {
        return move_list_len(&moves);
    }

    let n = move_list_len(&moves);
    let mut total: usize = 0;
    let mut i: usize = 0;
    proof {
        lemma_seq_count(*pos, list, depth as int);
        assert(list.take(0) =~= Seq::<u16>::empty());
    }
    while i < n
        invariant
            pos.wf(),
            !exposes_king(*pos),
            depth >= 2,
            perft_fits(*pos, depth as int),
            perft_count(*pos, depth as int) <= usize::MAX,
            list == move_list_moves(moves),
            n == list.len(),
            i <= n,
            list.to_set() == legal_set(*pos),
            seq_count(*pos, list, depth as int) == perft_count(*pos, depth as int),
            total == seq_count(*pos, list.take(i as int), depth as int),
        decreases n - i,
    {
        let mv = move_list_get(&moves, i);
        let ghost m = mv@;
        proof {
            assert(list.to_set().contains(list[i as int]));
            assert(legal_set(*pos).contains(m));
            lemma_no_king_capture(*pos, m);
        }

        let next = pos.apply_move(mv);
        proof {
            let q = next_position(*pos, m);
            assert(follows(next, *pos, m));
            lemma_legal_move_safe(*pos, m, next);
            assert(alike(next, q));
            lemma_perft_alike(next, q, depth - 1);
            lemma_seq_count_prefix(*pos, list, depth as int, i as int);
        }
        let value = do_perft(&next, depth - 1);

        total = total + value;
        i = i + 1;
    }
    proof {
        assert(list.take(n as int) =~= list);
    }

    total
}

/// The number of leaves of the tree of legal moves `depth` plies deep, at
/// least one ply.
pub fn perft(pos: &Position, depth: i32) -> (r: usize)
    requires
        pos.wf(),
        !exposes_king(*pos),
        perft_fits(*pos, if depth < 1 { 1 } else { depth as int }),
        perft_count(*pos, if depth < 1 { 1 } else { depth as int }) <= usize::MAX,
    ensures
        r == perft_count(*pos, if depth < 1 { 1 } else { depth as int }),
{
    let depth = if depth < 1 {
        1
    } else {
        depth
    };
    do_perft(pos, depth)
}

/// The leaf counts of a split, added up.
pub open spec fn split_total(split: Seq<(Move, usize)>) -> int
    decreases split.len(),
{
    if split.len() == 0 {
        0
    } else {
        split_total(split.drop_last()) + split.last().1
    }
}

/// Each legal move, in the order they are generated, with the leaves under
/// it when the tree is `depth` plies deep from `pos` (at least one ply);
/// the counts add up to the whole count.
pub fn perft_divide(pos: &Position, depth: i32) -> (r: Vec<(Move, usize)>)
    requires
        pos.wf(),
        !exposes_king(*pos),
        perft_fits(*pos, if depth < 1 { 1 } else { depth as int }),
        perft_count(*pos, if depth < 1 { 1 } else { depth as int }) <= usize::MAX,
    ensures
        r@.map_values(|e: (Move, usize)| e.0@).no_duplicates(),
        r@.map_values(|e: (Move, usize)| e.0@).to_set() == legal_set(*pos),
        forall|i: int| 0 <= i < r@.len() ==> #[trigger] r@[i].1 == perft_count(next_position(*pos, r@[i].0@), (if depth < 1 { 1 } else { depth as int }) - 1),
        split_total(r@) == perft_count(*pos, if depth < 1 { 1 } else { depth as int }),
{
    let depth = if depth < 1 {
        1
    } else {
        depth
    };
    proof {
        lemma_legal_set_finite(*pos);
    }
    let mut moves = new_move_list();
    generate_all(&mut moves, pos);
    let ghost list = move_list_moves(moves);
    proof {
        assert(appended(list, 0) =~= list);
        assert(count(Seq::<u16>::empty()) == 0);
        if depth >= 2 {
            lemma_seq_count(*pos, list, depth as int);
        }
    }

    let n = move_list_len(&moves);
    let mut out: Vec<(Move, usize)> = Vec::new();
    let mut i: usize = 0;
    while i < n
        invariant
            pos.wf(),
            !exposes_king(*pos),
            depth >= 1,
            perft_fits(*pos, depth as int),
            perft_count(*pos, depth as int) <= usize::MAX,
            list == move_list_moves(moves),
            n == list.len(),
            i <= n,
            list.to_set() == legal_set(*pos),
            list.no_duplicates(),
            depth >= 2 ==> seq_count(*pos, list, depth as int) == perft_count(*pos, depth as int),
            out@.len() == i,
            forall|j: int| 0 <= j < i ==> (#[trigger] out@[j]).0@ == list[j],
            forall|j: int| 0 <= j < i ==> #[trigger] out@[j].1 == perft_count(next_position(*pos, out@[j].0@), depth - 1),
            depth >= 2 ==> split_total(out@) == seq_count(*pos, list.take(i as int), depth as int),
            depth == 1 ==> split_total(out@) == i,
        decreases n - i,
    {
        let mv = move_list_get(&moves, i);
        let ghost m = mv@;
        proof {
            assert(list.to_set().contains(list[i as int]));
            assert(legal_set(*pos).contains(m));
            lemma_no_king_capture(*pos, m);
        }
        let value = if depth == 1 {
            1
        } else {
            proof {
                assert(legal_set(*pos).contains(m));
            }
            let next = pos.apply_move(mv);
            proof {
                let q = next_position(*pos, m);
                assert(follows(next, *pos, m));
                lemma_legal_move_safe(*pos, m, next);
                assert(alike(next, q));
                lemma_perft_alike(next, q, depth - 1);
                lemma_seq_count_prefix(*pos, list, depth as int, i as int);
                assert(seq_count(*pos, list.take(i as int), depth as int) >= 0);
            }
            do_perft(&next, depth - 1)
        };
        let ghost before = out@;
        out.push((mv, value));
        proof {
            assert(out@.drop_last() =~= before);
            if depth >= 2 {
                lemma_seq_count_prefix(*pos, list, depth as int, i as int);
            }
        }
        i = i + 1;
    }
    proof {
        assert(out@.map_values(|e: (Move, usize)| e.0@) =~= list);
        assert(list.take(n as int) =~= list);
    }
    out
}

/// Beyond one ply, the leaves of the tree are those under each legal move
/// in turn, in any order that takes each legal move once.
pub proof fn lemma_perft_sum(pos: Position, moves: Seq<u16>, depth: int)
    requires
        depth >= 2,
        moves.no_duplicates(),
        moves.to_set() == legal_set(pos),
    ensures
        perft_count(pos, depth) == seq_count(pos, moves, depth),
{
    lemma_legal_set_finite(pos);
    lemma_seq_count(pos, moves, depth);
}

/// The position that making a legal move gives has the tree of the
/// position the move leads to.
pub proof fn lemma_perft_child(pos: Position, m: u16, next: Position, depth: int)
    requires
        pos.wf(),
        follows(next, pos, m),
        next.halfmove_value() == halfmove_after(pos, m),
        next.fullmove_value() == fullmove_after(pos, m),
    ensures
        perft_count(next, depth) == perft_count(next_position(pos, m), depth),
        perft_fits(next, depth) == perft_fits(next_position(pos, m), depth),
{
    let q = next_position(pos, m);
    assert(alike(next, q));
    lemma_perft_alike(next, q, depth);
}

/// Whether every position of the tree of legal moves, `depth` plies deep,
/// has at most as many legal moves as a move list holds and keeps its
/// counters in range: what `perft` needs of the tree.
pub fn fits_perft(pos: &Position, depth: i32) -> (r: bool)
    requires
        pos.wf(),
        !exposes_king(*pos),
    ensures
        r == perft_fits(*pos, depth as int),
    decreases depth,
{
    if depth <= 0 {
        return true;
    }
    if legal_move_count(pos) > 128 {
        return false;
    }
    if depth < 2 {
        return true;
    }
    proof {
        lemma_legal_set_finite(*pos);
    }
    let mut moves = new_move_list();
    generate_all(&mut moves, pos);
    let ghost list = move_list_moves(moves);
    proof {
        assert(appended(list, 0) =~= list);
        assert(count(Seq::<u16>::empty()) == 0);
    }
    let n = move_list_len(&moves);
    let mut i: usize = 0;
    while i < n
        invariant
            pos.wf(),
            !exposes_king(*pos),
            depth >= 2,
            legal_set(*pos).len() <= 128,
            list == move_list_moves(moves),
            n == list.len(),
            i <= n,
            list.to_set() == legal_set(*pos),
            forall|j: int| 0 <= j < i ==> counters_fit(*pos, #[trigger] list[j]) && perft_fits(next_position(*pos, list[j]), depth - 1),
        decreases n - i,
    {
        let mv = move_list_get(&moves, i);
        let ghost m = mv@;
        proof {
            assert(list.to_set().contains(list[i as int]));
            assert(legal_set(*pos).contains(m));
            lemma_no_king_capture(*pos, m);
        }
        let from = mv.from_sq();
        let to = mv.to_sq();
        let resets = match pos.piece_on(to) {
            Some(_) => true,
            None => match pos.piece_on(from) {
                Some(p) => p.piece_type() == PieceType::Pawn,
                None => false,
            },
        };
        proof {
            pos.lemma_legal_basics(m);
        }
        let halfmove_fits = resets || pos.halfmove() < u16::MAX;
        let fullmove_fits = pos.stm() == Color::White || pos.fullmove() < u32::MAX;
        if !(halfmove_fits && fullmove_fits) {
            proof {
                pos.lemma_legal_basics(m);
                assert(resets == pos.resets_halfmove(m));
                assert(!counters_fit(*pos, m));
            }
            return false;
        }
        let next = pos.apply_move(mv);
        proof {
            let q = next_position(*pos, m);
            assert(follows(next, *pos, m));
            assert(alike(next, q));
            lemma_perft_alike(next, q, depth - 1);
        }
        if !fits_perft(&next, depth - 1) {
            return false;
        }
        i = i + 1;
    }
    proof {
        assert forall|m: u16| #[trigger] legal_set(*pos).contains(m) implies counters_fit(*pos, m) && perft_fits(next_position(*pos, m), depth - 1) by {
            assert(list.to_set().contains(m));
            let j = choose|j: int| 0 <= j < list.len() && list[j] == m;
            assert(counters_fit(*pos, list[j]));
        }
    }
    true
}

} // verus!
