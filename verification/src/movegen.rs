//! Legal move generation into a fixed-capacity list.
use crate::attacks::{
    abs, alfil_attack, alfil_attacks, file_diff, lemma_offset, lemma_square_coords, piece_attack,
    rank_diff, ferz_attack, ferz_attacks, king_attack, king_attacks,
    knight_attack, knight_attacks, rook_attack, rook_attacks,
};
use crate::bitboard::{
    forward, has_bit, lemma_and_bit, lemma_bit_ops, lemma_lowest_bit, lemma_popcount_one, moved_from,
    only_bit_below, popcount_spec, Bitboard,
};
use crate::core_types::{file_of, rank_of, spec_relative_rank, Color, PieceType, Square};
use crate::position::Position;
use crate::rays::{
    between, lemma_between_symmetric, lemma_rook_attack_between, past, ray_between, ray_past,
};
use crate::core_types::Piece;
use crate::shatranjmove::{
    lemma_unpack, lemma_unpack_eq, packed_from, packed_promo, packed_to, valid_packed, Move,
};
use vstd::prelude::*;

verus! {

pub const MAX_MOVES: usize = 128;

pub type MoveList = arrayvec::ArrayVec<Move, MAX_MOVES>;

#[verifier::external_type_specification]
#[verifier::external_body]
#[verifier::reject_recursive_types(T)]
pub struct ExArrayVec<T, const CAP: usize>(arrayvec::ArrayVec<T, CAP>);

/// The moves that a move list holds, each in its packed form, in order.
pub uninterp spec fn move_list_moves(list: arrayvec::ArrayVec<Move, 128>) -> Seq<u16>;

/// Calls `ArrayVec::new`, which makes an empty list.
#[verifier::external_body]
pub(crate) fn new_move_list() -> (r: MoveList)
    ensures
        move_list_moves(r) == Seq::<u16>::empty(),
{
    arrayvec::ArrayVec::new()
}

/// Calls `ArrayVec::push`, which appends `mv` after the moves the list
/// holds; it panics on a full list, which the precondition rules out.
#[verifier::external_body]
fn move_list_push(list: &mut MoveList, mv: Move)
    requires
        move_list_moves(*old(list)).len() < 128,
    ensures
        move_list_moves(*final(list)) == move_list_moves(*old(list)).push(mv@),
{
    list.push(mv)
}

/// Calls `ArrayVec::len`, the number of moves the list holds.
#[verifier::external_body]
pub(crate) fn move_list_len(list: &MoveList) -> (r: usize)
    ensures
        r == move_list_moves(*list).len(),
{
    list.len()
}

/// Indexes the list's slice (`ArrayVec` derefs to `[Move]`): the move at
/// position `i`, which the precondition keeps in bounds.
#[verifier::external_body]
pub(crate) fn move_list_get(list: &MoveList, i: usize) -> (r: Move)
    requires
        i < move_list_moves(*list).len(),
    ensures
        r@ == move_list_moves(*list)[i as int],
{
    list[i]
}

/// An empty move list.
pub fn empty_move_list() -> (r: MoveList)
    ensures
        move_list_moves(r) == Seq::<u16>::empty(),
{
    new_move_list()
}

/// How many moves the list holds.
pub fn move_list_count(list: &MoveList) -> (r: usize)
    ensures
        r == move_list_moves(*list).len(),
{
    move_list_len(list)
}

/// The move at position `i` of the list.
pub fn move_list_entry(list: &MoveList, i: usize) -> (r: Move)
    requires
        i < move_list_moves(*list).len(),
    ensures
        r@ == move_list_moves(*list)[i as int],
{
    move_list_get(list, i)
}

/// The legal moves of a position, in packed form.
pub open spec fn legal_set(pos: Position) -> Set<u16> {
    Set::new(|m: u16| valid_packed(m) && pos.legal_move(m))
}

/// How many moves `s` holds.
pub open spec fn count(s: Seq<u16>) -> int {
    s.len() as int
}

/// The moves appended after the first `base`.
pub open spec fn appended(s: Seq<u16>, base: int) -> Seq<u16> {
    s.subrange(base, s.len() as int)
}

/// The moves appended after the first `base` are distinct legal moves of
/// `pos`, and all legal moves fit after them.
pub open spec fn gen_ok(s: Seq<u16>, base: int, pos: Position) -> bool {
    &&& 0 <= base <= s.len()
    &&& appended(s, base).no_duplicates()
    &&& appended(s, base).to_set().subset_of(legal_set(pos))
    &&& legal_set(pos).finite()
    &&& base + legal_set(pos).len() <= 128
}

/// The legal moves of a position are finitely many: at most one for each
/// packed form.
pub proof fn lemma_legal_set_finite(pos: Position)
    ensures
        legal_set(pos).finite(),
        legal_set(pos).len() <= 8192,
{
    let r = vstd::set_lib::set_int_range(0, 8192);
    vstd::set_lib::lemma_int_range(0, 8192);
    let f = |i: int| i as u16;
    r.lemma_map_finite(f);
    vstd::set_lib::lemma_map_size_bound(r, r.map(f), f);
    assert forall|m: u16| legal_set(pos).contains(m) implies #[trigger] r.map(f).contains(m) by {
        assert(r.contains(m as int));
        assert(f(m as int) == m);
    }
    vstd::set_lib::lemma_len_subset(legal_set(pos), r.map(f));
}

/// Appends a legal move not yet appended.
fn push_move(dst: &mut MoveList, mv: Move, Ghost(pos): Ghost<Position>, Ghost(base): Ghost<int>)
    requires
        gen_ok(move_list_moves(*old(dst)), base, pos),
        legal_set(pos).contains(mv@),
        !appended(move_list_moves(*old(dst)), base).to_set().contains(mv@),
    ensures
        move_list_moves(*final(dst)) == move_list_moves(*old(dst)).push(mv@),
        gen_ok(move_list_moves(*final(dst)), base, pos),
        appended(move_list_moves(*final(dst)), base).to_set() == appended(move_list_moves(*old(dst)), base).to_set().insert(mv@),
{
    let ghost s0 = move_list_moves(*dst);
    proof {
        let a = appended(s0, base);
        a.unique_seq_to_set();
        assert(a.to_set().subset_of(legal_set(pos).remove(mv@)));
        vstd::set_lib::lemma_len_subset(a.to_set(), legal_set(pos).remove(mv@));
    }
    move_list_push(dst, mv);
    proof {
        let s1 = move_list_moves(*dst);
        let a0 = appended(s0, base);
        let a1 = appended(s1, base);
        assert(a1 =~= a0.push(mv@));
        a0.lemma_push_to_set_commute(mv@);
        assert forall|i: int, j: int| 0 <= i < a1.len() && 0 <= j < a1.len() && i != j implies a1[i] != a1[j] by {
            if i < a0.len() && j < a0.len() {
            } else if i == a0.len() {
                assert(a0.contains(a1[j]));
            } else {
                assert(a0.contains(a1[i]));
            }
        }
    }
}

/// The moves from `from` to the squares of `to_squares`, without promotion.
pub open spec fn from_moves(from: int, to_squares: u64) -> Set<u16> {
    Set::new(|m: u16| valid_packed(m) && !packed_promo(m) && packed_from(m) == from && has_bit(to_squares, packed_to(m)))
}

/// The moves to the squares of `to_squares`, each from the square `offset`
/// before it, with the promotion flag `promo`.
pub open spec fn offset_moves(offset: int, to_squares: u64, promo: bool) -> Set<u16> {
    Set::new(|m: u16| valid_packed(m) && packed_promo(m) == promo && packed_from(m) == packed_to(m) - offset && has_bit(to_squares, packed_to(m)))
}

/// Appends the moves from `from` to each square of `to_squares`.
fn push_standards_from_square(dst: &mut MoveList, from: Square, to_squares: Bitboard, Ghost(pos): Ghost<Position>, Ghost(base): Ghost<int>)
    requires
        gen_ok(move_list_moves(*old(dst)), base, pos),
        from_moves(from as int, to_squares@).subset_of(legal_set(pos)),
        from_moves(from as int, to_squares@).disjoint(appended(move_list_moves(*old(dst)), base).to_set()),
        !has_bit(to_squares@, from as int),
    ensures
        gen_ok(move_list_moves(*final(dst)), base, pos),
        move_list_moves(*final(dst)).subrange(0, base) == move_list_moves(*old(dst)).subrange(0, base),
        appended(move_list_moves(*final(dst)), base).to_set() == appended(move_list_moves(*old(dst)), base).to_set() + from_moves(from as int, to_squares@),
{
    let ghost s0 = move_list_moves(*dst);
    let ghost a0 = appended(s0, base).to_set();
    let mut it = to_squares.into_iter();
    proof {
        assert(from_moves(from as int, to_squares@ & !it.remaining()@) =~= Set::empty()) by {
            lemma_bit_ops();
        }
    }
    loop
        invariant
            gen_ok(move_list_moves(*dst), base, pos),
            move_list_moves(*dst).subrange(0, base) == s0.subrange(0, base),
            from_moves(from as int, to_squares@).subset_of(legal_set(pos)),
            from_moves(from as int, to_squares@).disjoint(a0),
            !has_bit(to_squares@, from as int),
            s0 == move_list_moves(*old(dst)),
            a0 == appended(s0, base).to_set(),
            0 <= base <= s0.len(),
            forall|t: int| #[trigger] has_bit(it.remaining()@, t) ==> has_bit(to_squares@, t),
            appended(move_list_moves(*dst), base).to_set() == a0 + from_moves(from as int, to_squares@ & !it.remaining()@),
        decreases it.remaining()@,
    {
        let ghost rem0 = it.remaining()@;
        match it.next() {
            None => {
                proof {
                    lemma_bit_ops();
                    assert(from_moves(from as int, to_squares@ & !rem0) =~= from_moves(from as int, to_squares@));
                }
                return;
            },
            Some(to) => {
                let mv = Move::new(from, to);
                proof {
                    lemma_bit_ops();
                    assert(from_moves(from as int, to_squares@).contains(mv@));
                    assert(!from_moves(from as int, to_squares@ & !rem0).contains(mv@));
                }
                let ghost sb = move_list_moves(*dst);
                push_move(dst, mv, Ghost(pos), Ghost(base));
                proof {
                    let rem1 = it.remaining()@;
                    let fr = from as int;
                    let s1 = from_moves(fr, to_squares@ & !rem1);
                    let s0 = from_moves(fr, to_squares@ & !rem0);
                    assert(move_list_moves(*dst).subrange(0, base) =~= sb.subrange(0, base));
                    assert forall|m: u16| #[trigger] s1.contains(m) == (s0.contains(m) || m == mv@) by {
                        if valid_packed(m) && packed_from(m) == from as int && packed_to(m) == to as int && !packed_promo(m) {
                            lemma_unpack_eq(m, mv@);
                        }
                    }
                    assert(from_moves(from as int, to_squares@ & !rem1) =~= from_moves(from as int, to_squares@ & !rem0).insert(mv@));
                }
            },
        }
    }
}


/// Appends, for each square of `to_squares`, the move to it from the square
/// `offset` before it, promoting when `promo` is set.
#[verifier::rlimit(40)]
fn push_offset_moves(dst: &mut MoveList, offset: i32, to_squares: Bitboard, promo: bool, Ghost(pos): Ghost<Position>, Ghost(base): Ghost<int>)
    requires
        gen_ok(move_list_moves(*old(dst)), base, pos),
        -64 < offset < 64,
        offset != 0,
        forall|t: int| #[trigger] has_bit(to_squares@, t) ==> 0 <= t - offset < 64,
        offset_moves(offset as int, to_squares@, promo).subset_of(legal_set(pos)),
        offset_moves(offset as int, to_squares@, promo).disjoint(appended(move_list_moves(*old(dst)), base).to_set()),
    ensures
        gen_ok(move_list_moves(*final(dst)), base, pos),
        move_list_moves(*final(dst)).subrange(0, base) == move_list_moves(*old(dst)).subrange(0, base),
        appended(move_list_moves(*final(dst)), base).to_set() == appended(move_list_moves(*old(dst)), base).to_set() + offset_moves(offset as int, to_squares@, promo),
{
    let ghost s0 = move_list_moves(*dst);
    let ghost a0 = appended(s0, base).to_set();
    let ghost off = offset as int;
    let mut it = to_squares.into_iter();
    proof {
        assert(offset_moves(off, to_squares@ & !it.remaining()@, promo) =~= Set::empty()) by {
            lemma_bit_ops();
        }
    }
    loop
        invariant
            gen_ok(move_list_moves(*dst), base, pos),
            move_list_moves(*dst).subrange(0, base) == s0.subrange(0, base),
            s0 == move_list_moves(*old(dst)),
            a0 == appended(s0, base).to_set(),
            0 <= base <= s0.len(),
            off == offset as int,
            -64 < offset < 64,
            offset != 0,
            forall|t: int| #[trigger] has_bit(to_squares@, t) ==> 0 <= t - offset < 64,
            offset_moves(off, to_squares@, promo).subset_of(legal_set(pos)),
            offset_moves(off, to_squares@, promo).disjoint(a0),
            forall|t: int| #[trigger] has_bit(it.remaining()@, t) ==> has_bit(to_squares@, t),
            appended(move_list_moves(*dst), base).to_set() == a0 + offset_moves(off, to_squares@ & !it.remaining()@, promo),
        decreases it.remaining()@,
    {
        let ghost rem0 = it.remaining()@;
        match it.next() {
            None => {
                proof {
                    lemma_bit_ops();
                    assert(offset_moves(off, to_squares@ & !rem0, promo) =~= offset_moves(off, to_squares@, promo));
                }
                return;
            },
            Some(to) => {
                proof {
                    assert(has_bit(to_squares@, to as int));
                }
                let from = to.offset(-offset).unwrap();
                let mv = if promo {
                    Move::new_promo(from, to)
                } else {
                    Move::new(from, to)
                };
                proof {
                    lemma_bit_ops();
                    assert(offset_moves(off, to_squares@, promo).contains(mv@));
                    assert(!offset_moves(off, to_squares@ & !rem0, promo).contains(mv@));
                }
                let ghost sb = move_list_moves(*dst);
                push_move(dst, mv, Ghost(pos), Ghost(base));
                proof {
                    let rem1 = it.remaining()@;
                    let n1 = offset_moves(off, to_squares@ & !rem1, promo);
                    let n0 = offset_moves(off, to_squares@ & !rem0, promo);
                    assert(move_list_moves(*dst).subrange(0, base) =~= sb.subrange(0, base));
                    assert forall|m: u16| #[trigger] n1.contains(m) == (n0.contains(m) || m == mv@) by {
                        if valid_packed(m) && packed_to(m) == to as int && packed_from(m) == from as int && packed_promo(m) == promo {
                            lemma_unpack_eq(m, mv@);
                        }
                    }
                    assert(n1 =~= n0.insert(mv@));
                }
            },
        }
    }
}

/// Appends, for each square of `to_squares`, the move to it from the square
/// `offset` before it.
fn push_standards_with_offset(dst: &mut MoveList, offset: i32, to_squares: Bitboard, Ghost(pos): Ghost<Position>, Ghost(base): Ghost<int>)
    requires
        gen_ok(move_list_moves(*old(dst)), base, pos),
        -64 < offset < 64,
        offset != 0,
        forall|t: int| #[trigger] has_bit(to_squares@, t) ==> 0 <= t - offset < 64,
        offset_moves(offset as int, to_squares@, false).subset_of(legal_set(pos)),
        offset_moves(offset as int, to_squares@, false).disjoint(appended(move_list_moves(*old(dst)), base).to_set()),
    ensures
        gen_ok(move_list_moves(*final(dst)), base, pos),
        move_list_moves(*final(dst)).subrange(0, base) == move_list_moves(*old(dst)).subrange(0, base),
        appended(move_list_moves(*final(dst)), base).to_set() == appended(move_list_moves(*old(dst)), base).to_set() + offset_moves(offset as int, to_squares@, false),
{
    push_offset_moves(dst, offset, to_squares, false, Ghost(pos), Ghost(base));
}

/// Appends, for each square of `to_squares`, the promotion to it from the
/// square `offset` before it.
fn push_promos_with_offset(dst: &mut MoveList, offset: i32, to_squares: Bitboard, Ghost(pos): Ghost<Position>, Ghost(base): Ghost<int>)
    requires
        gen_ok(move_list_moves(*old(dst)), base, pos),
        -64 < offset < 64,
        offset != 0,
        forall|t: int| #[trigger] has_bit(to_squares@, t) ==> 0 <= t - offset < 64,
        offset_moves(offset as int, to_squares@, true).subset_of(legal_set(pos)),
        offset_moves(offset as int, to_squares@, true).disjoint(appended(move_list_moves(*old(dst)), base).to_set()),
    ensures
        gen_ok(move_list_moves(*final(dst)), base, pos),
        move_list_moves(*final(dst)).subrange(0, base) == move_list_moves(*old(dst)).subrange(0, base),
        appended(move_list_moves(*final(dst)), base).to_set() == appended(move_list_moves(*old(dst)), base).to_set() + offset_moves(offset as int, to_squares@, true),
{
    push_offset_moves(dst, offset, to_squares, true, Ghost(pos), Ghost(base));
}


/// The legal moves of `pos` that move a piece of type `pt`.
pub open spec fn legal_of(pos: Position, pt: PieceType) -> Set<u16> {
    Set::new(|m: u16| legal_set(pos).contains(m) && pos.board()[packed_from(m)]->0.spec_piece_type() == pt)
}

/// `mask` holds the squares that a piece of the side to move other than its
/// king may go to: those its own side does not hold and, in check by one
/// piece, the checker's square and those between it and the king; in double
/// check none.
pub open spec fn target_mask(pos: Position, mask: u64) -> bool {
    forall|t: int|
        0 <= t < 64 ==> #[trigger] has_bit(mask, t) == (!pos.holds_color(t, pos.side()) && (
        pos.checker_bits() != 0 ==> popcount_spec(pos.checker_bits()) <= 1 && (between(
            pos.our_king(),
            pos.checker_square(),
            t,
        ) || t == pos.checker_square())))
}

/// A leaping piece of type `pt` (alfil, ferz or knight) on `f` reaches `t`.
pub open spec fn leap(pt: PieceType, f: int, t: int) -> bool {
    match pt {
        PieceType::Alfil => alfil_attack(f, t),
        PieceType::Ferz => ferz_attack(f, t),
        PieceType::Knight => knight_attack(f, t),
        _ => false,
    }
}

/// The moves of a leaping piece of type `pt` from a square of `froms` to a
/// square of `mask` that it reaches.
pub open spec fn leaper_moves(froms: u64, pt: PieceType, mask: u64) -> Set<u16> {
    Set::new(|m: u16| valid_packed(m) && !packed_promo(m) && has_bit(froms, packed_from(m)) && leap(pt, packed_from(m), packed_to(m)) && has_bit(mask, packed_to(m)))
}

/// A square on the ray from `k` through `f` shares a line with both.
pub proof fn lemma_past_line(k: int, f: int, t: int)
    requires
        past(k, f, t),
    ensures
        (file_of(f) == file_of(t) && file_of(k) == file_of(f)) || (rank_of(f) == rank_of(t) && rank_of(k) == rank_of(f)),
{
}

/// A leaping piece of the side to move makes a legal move exactly when it
/// is not pinned and goes, without promoting, to a square of the target
/// mask that it reaches.
proof fn lemma_leaper_legal(pos: Position, mask: u64, pt: PieceType, m: u16)
    requires
        target_mask(pos, mask),
        valid_packed(m),
        pt == PieceType::Alfil || pt == PieceType::Ferz || pt == PieceType::Knight,
        pos.board()[packed_from(m)] == Some(pt.spec_with_color(pos.side())),
    ensures
        pos.legal_move(m) == (!packed_promo(m) && leap(pt, packed_from(m), packed_to(m)) && has_bit(mask, packed_to(m)) && !has_bit(pos.pinned_bits(), packed_from(m))),
{
    reveal(Position::legal_move);
    reveal(Position::piece_reaches);
    lemma_unpack(m);
    let f = packed_from(m);
    let t = packed_to(m);
    assert(has_bit(mask, t) == (!pos.holds_color(t, pos.side()) && (pos.checker_bits() != 0 ==> popcount_spec(pos.checker_bits()) <= 1 && (between(pos.our_king(), pos.checker_square(), t) || t == pos.checker_square()))));
    if has_bit(pos.pinned_bits(), f) && past(pos.our_king(), f, t) {
        lemma_past_line(pos.our_king(), f, t);
    }
}


/// The leaping moves from the unpinned pieces of type `pt` of the side to
/// move, to the squares of the target mask, are its legal moves with those
/// pieces.
proof fn lemma_leapers_complete(pos: Position, mask: u64, pt: PieceType, froms: u64)
    requires
        target_mask(pos, mask),
        pt == PieceType::Alfil || pt == PieceType::Ferz || pt == PieceType::Knight,
        forall|s: int| #[trigger] has_bit(froms, s) == (0 <= s < 64 && pos.board()[s] == Some(pt.spec_with_color(pos.side())) && !has_bit(pos.pinned_bits(), s)),
    ensures
        leaper_moves(froms, pt, mask) == legal_of(pos, pt),
{
    assert forall|m: u16| #[trigger] leaper_moves(froms, pt, mask).contains(m) == legal_of(pos, pt).contains(m) by {
        if valid_packed(m) {
            lemma_unpack(m);
            let f = packed_from(m);
            if pos.board()[f] == Some(pt.spec_with_color(pos.side())) {
                lemma_leaper_legal(pos, mask, pt, m);
            } else if legal_of(pos, pt).contains(m) {
                pos.lemma_legal_basics(m);
                Piece::lemma_parts(pos.board()[f]->0, pt.spec_with_color(pos.side()));
            }
        }
    }
    assert(leaper_moves(froms, pt, mask) =~= legal_of(pos, pt));
}

/// Appends the moves of the leaping pieces of type `pt` on the squares of
/// `froms` to the squares of `mask` they reach.
fn push_leaper_moves(dst: &mut MoveList, froms: Bitboard, pt: PieceType, mask: Bitboard, Ghost(pos): Ghost<Position>, Ghost(base): Ghost<int>)
    requires
        gen_ok(move_list_moves(*old(dst)), base, pos),
        target_mask(pos, mask@),
        pt == PieceType::Alfil || pt == PieceType::Ferz || pt == PieceType::Knight,
        forall|s: int| #[trigger] has_bit(froms@, s) ==> 0 <= s < 64 && pos.board()[s] == Some(pt.spec_with_color(pos.side())) && !has_bit(pos.pinned_bits(), s),
        legal_of(pos, pt).disjoint(appended(move_list_moves(*old(dst)), base).to_set()),
    ensures
        gen_ok(move_list_moves(*final(dst)), base, pos),
        move_list_moves(*final(dst)).subrange(0, base) == move_list_moves(*old(dst)).subrange(0, base),
        appended(move_list_moves(*final(dst)), base).to_set() == appended(move_list_moves(*old(dst)), base).to_set() + leaper_moves(froms@, pt, mask@),
{
    let ghost s0 = move_list_moves(*dst);
    let ghost a0 = appended(s0, base).to_set();
    let mut it = froms.into_iter();
    proof {
        assert(leaper_moves(froms@ & !it.remaining()@, pt, mask@) =~= Set::empty()) by {
            lemma_bit_ops();
        }
    }
    loop
        invariant
            gen_ok(move_list_moves(*dst), base, pos),
            move_list_moves(*dst).subrange(0, base) == s0.subrange(0, base),
            s0 == move_list_moves(*old(dst)),
            a0 == appended(s0, base).to_set(),
            0 <= base <= s0.len(),
            target_mask(pos, mask@),
            pt == PieceType::Alfil || pt == PieceType::Ferz || pt == PieceType::Knight,
            forall|s: int| #[trigger] has_bit(froms@, s) ==> 0 <= s < 64 && pos.board()[s] == Some(pt.spec_with_color(pos.side())) && !has_bit(pos.pinned_bits(), s),
            legal_of(pos, pt).disjoint(a0),
            forall|t: int| #[trigger] has_bit(it.remaining()@, t) ==> has_bit(froms@, t),
            appended(move_list_moves(*dst), base).to_set() == a0 + leaper_moves(froms@ & !it.remaining()@, pt, mask@),
        decreases it.remaining()@,
    {
        let ghost rem0 = it.remaining()@;
        match it.next() {
            None => {
                proof {
                    lemma_bit_ops();
                    assert(leaper_moves(froms@ & !rem0, pt, mask@) =~= leaper_moves(froms@, pt, mask@));
                }
                return;
            },
            Some(sq) => {
                let reach = match pt {
                    PieceType::Alfil => alfil_attacks(sq),
                    PieceType::Ferz => ferz_attacks(sq),
                    _ => knight_attacks(sq),
                };
                let moves = reach.and(mask);
                let ghost done0 = leaper_moves(froms@ & !rem0, pt, mask@);
                proof {
                    lemma_bit_ops();
                    assert(has_bit(froms@, sq as int));
                    assert forall|t: int| #[trigger] has_bit(moves@, t) == (leap(pt, sq as int, t) && has_bit(mask@, t)) by {
                        lemma_and_bit(reach@, mask@, t);
                    }
                    let fm = from_moves(sq as int, moves@);
                    assert forall|m: u16| fm.contains(m) implies #[trigger] legal_set(pos).contains(m) && !a0.contains(m) && !done0.contains(m) by {
                        lemma_leaper_legal(pos, mask@, pt, m);
                        assert(legal_of(pos, pt).contains(m));
                    }
                    assert(fm.subset_of(legal_set(pos)));
                    assert(fm.disjoint(a0 + done0));
                }
                push_standards_from_square(dst, sq, moves, Ghost(pos), Ghost(base));
                proof {
                    let rem1 = it.remaining()@;
                    let done1 = leaper_moves(froms@ & !rem1, pt, mask@);
                    let fm = from_moves(sq as int, moves@);
                    assert forall|m: u16| #[trigger] done1.contains(m) == (done0.contains(m) || fm.contains(m)) by {
                        lemma_and_bit(froms@, !rem1, packed_from(m));
                        lemma_and_bit(froms@, !rem0, packed_from(m));
                        lemma_bit_ops();
                    }
                    assert(done1 =~= done0 + fm);
                    assert(a0 + done1 =~= (a0 + done0) + fm);
                }
            },
        }
    }
}

/// Appends the legal moves of the alfils, ferzes and knights of the side to
/// move; pinned, none of them can move.
fn generate_leapers(dst: &mut MoveList, pos: &Position, mask: Bitboard, Ghost(base): Ghost<int>)
    requires
        gen_ok(move_list_moves(*old(dst)), base, *pos),
        pos.wf(),
        target_mask(*pos, mask@),
        legal_of(*pos, PieceType::Alfil).disjoint(appended(move_list_moves(*old(dst)), base).to_set()),
        legal_of(*pos, PieceType::Ferz).disjoint(appended(move_list_moves(*old(dst)), base).to_set()),
        legal_of(*pos, PieceType::Knight).disjoint(appended(move_list_moves(*old(dst)), base).to_set()),
    ensures
        gen_ok(move_list_moves(*final(dst)), base, *pos),
        move_list_moves(*final(dst)).subrange(0, base) == move_list_moves(*old(dst)).subrange(0, base),
        appended(move_list_moves(*final(dst)), base).to_set() == appended(move_list_moves(*old(dst)), base).to_set() + legal_of(*pos, PieceType::Alfil) + legal_of(*pos, PieceType::Ferz) + legal_of(*pos, PieceType::Knight),
{
    let ghost a0 = appended(move_list_moves(*dst), base).to_set();
    let pinned = pos.pinned();
    let stm = pos.stm();

    // none of these pieces can move when pinned

    let alfils = pos.piece_bb(PieceType::Alfil.with_color(stm));
    let free = alfils.and(pinned.cmpl());
    proof {
        lemma_bit_ops();
        lemma_leapers_complete(*pos, mask@, PieceType::Alfil, free@);
    }
    push_leaper_moves(dst, free, PieceType::Alfil, mask, Ghost(*pos), Ghost(base));

    let ferzes = pos.piece_bb(PieceType::Ferz.with_color(stm));
    let free = ferzes.and(pinned.cmpl());
    proof {
        lemma_bit_ops();
        lemma_leapers_complete(*pos, mask@, PieceType::Ferz, free@);
        assert(legal_of(*pos, PieceType::Ferz).disjoint(legal_of(*pos, PieceType::Alfil)));
    }
    push_leaper_moves(dst, free, PieceType::Ferz, mask, Ghost(*pos), Ghost(base));

    let knights = pos.piece_bb(PieceType::Knight.with_color(stm));
    let free = knights.and(pinned.cmpl());
    proof {
        lemma_bit_ops();
        lemma_leapers_complete(*pos, mask@, PieceType::Knight, free@);
        assert(legal_of(*pos, PieceType::Knight).disjoint(legal_of(*pos, PieceType::Alfil)));
        assert(legal_of(*pos, PieceType::Knight).disjoint(legal_of(*pos, PieceType::Ferz)));
    }
    push_leaper_moves(dst, free, PieceType::Knight, mask, Ghost(*pos), Ghost(base));
}


/// The rook moves from the squares of `froms` to the squares of `mask` that
/// a rook reaches past the pieces of `occ`; with `pin`, only along the ray
/// from `king` through the rook.
pub open spec fn rook_moves(froms: u64, occ: u64, mask: u64, king: int, pin: bool) -> Set<u16> {
    Set::new(|m: u16| valid_packed(m) && !packed_promo(m) && has_bit(froms, packed_from(m)) && rook_attack(packed_from(m), packed_to(m), occ) && has_bit(mask, packed_to(m)) && (pin ==> past(king, packed_from(m), packed_to(m))))
}

/// A rook of the side to move makes a legal move exactly when it goes,
/// without promoting, to a square of the target mask that it reaches, and,
/// pinned, stays on the ray from its king.
proof fn lemma_rook_legal(pos: Position, mask: u64, m: u16)
    requires
        target_mask(pos, mask),
        valid_packed(m),
        pos.board()[packed_from(m)] == Some(PieceType::Rook.spec_with_color(pos.side())),
    ensures
        pos.legal_move(m) == (!packed_promo(m) && rook_attack(packed_from(m), packed_to(m), pos.occupied_bits()) && has_bit(mask, packed_to(m)) && (has_bit(pos.pinned_bits(), packed_from(m)) ==> past(pos.our_king(), packed_from(m), packed_to(m)))),
{
    reveal(Position::legal_move);
    reveal(Position::piece_reaches);
    lemma_unpack(m);
    let t = packed_to(m);
    assert(has_bit(mask, t) == (!pos.holds_color(t, pos.side()) && (pos.checker_bits() != 0 ==> popcount_spec(pos.checker_bits()) <= 1 && (between(pos.our_king(), pos.checker_square(), t) || t == pos.checker_square()))));
}

/// The moves of the unpinned rooks, and those of the pinned rooks along
/// their pins, to the squares of the target mask, are the legal rook moves.
proof fn lemma_rooks_complete(pos: Position, mask: u64, free: u64, held: u64)
    requires
        target_mask(pos, mask),
        forall|s: int| #[trigger] has_bit(free, s) == (0 <= s < 64 && pos.board()[s] == Some(PieceType::Rook.spec_with_color(pos.side())) && !has_bit(pos.pinned_bits(), s)),
        forall|s: int| #[trigger] has_bit(held, s) == (0 <= s < 64 && pos.board()[s] == Some(PieceType::Rook.spec_with_color(pos.side())) && has_bit(pos.pinned_bits(), s)),
    ensures
        rook_moves(free, pos.occupied_bits(), mask, pos.our_king(), false) + rook_moves(held, pos.occupied_bits(), mask, pos.our_king(), true) == legal_of(pos, PieceType::Rook),
        rook_moves(free, pos.occupied_bits(), mask, pos.our_king(), false).disjoint(rook_moves(held, pos.occupied_bits(), mask, pos.our_king(), true)),
{
    let occ = pos.occupied_bits();
    let k = pos.our_king();
    let a = rook_moves(free, occ, mask, k, false);
    let b = rook_moves(held, occ, mask, k, true);
    assert forall|m: u16| #[trigger] (a + b).contains(m) == legal_of(pos, PieceType::Rook).contains(m) by {
        if valid_packed(m) {
            lemma_unpack(m);
            let f = packed_from(m);
            if pos.board()[f] == Some(PieceType::Rook.spec_with_color(pos.side())) {
                lemma_rook_legal(pos, mask, m);
            } else if legal_of(pos, PieceType::Rook).contains(m) {
                pos.lemma_legal_basics(m);
                Piece::lemma_parts(pos.board()[f]->0, PieceType::Rook.spec_with_color(pos.side()));
            }
        }
    }
    assert(a + b =~= legal_of(pos, PieceType::Rook));
}

/// Appends the moves of the rooks on the squares of `froms` to the squares
/// of `mask` they reach past `occ`; with `pin`, only along the ray from
/// `king_sq` through each rook.
fn push_rook_moves(dst: &mut MoveList, froms: Bitboard, occ: Bitboard, mask: Bitboard, king_sq: Square, pin: bool, Ghost(pos): Ghost<Position>, Ghost(base): Ghost<int>)
    requires
        gen_ok(move_list_moves(*old(dst)), base, pos),
        target_mask(pos, mask@),
        occ@ == pos.occupied_bits(),
        king_sq as int == pos.our_king(),
        forall|s: int| #[trigger] has_bit(froms@, s) ==> 0 <= s < 64 && pos.board()[s] == Some(PieceType::Rook.spec_with_color(pos.side())) && has_bit(pos.pinned_bits(), s) == pin,
        rook_moves(froms@, occ@, mask@, king_sq as int, pin).disjoint(appended(move_list_moves(*old(dst)), base).to_set()),
    ensures
        gen_ok(move_list_moves(*final(dst)), base, pos),
        move_list_moves(*final(dst)).subrange(0, base) == move_list_moves(*old(dst)).subrange(0, base),
        appended(move_list_moves(*final(dst)), base).to_set() == appended(move_list_moves(*old(dst)), base).to_set() + rook_moves(froms@, occ@, mask@, king_sq as int, pin),
{
    let ghost s0 = move_list_moves(*dst);
    let ghost a0 = appended(s0, base).to_set();
    let ghost k = king_sq as int;
    let mut it = froms.into_iter();
    proof {
        assert(rook_moves(froms@ & !it.remaining()@, occ@, mask@, k, pin) =~= Set::empty()) by {
            lemma_bit_ops();
        }
    }
    loop
        invariant
            gen_ok(move_list_moves(*dst), base, pos),
            move_list_moves(*dst).subrange(0, base) == s0.subrange(0, base),
            s0 == move_list_moves(*old(dst)),
            a0 == appended(s0, base).to_set(),
            0 <= base <= s0.len(),
            target_mask(pos, mask@),
            occ@ == pos.occupied_bits(),
            k == king_sq as int,
            k == pos.our_king(),
            forall|s: int| #[trigger] has_bit(froms@, s) ==> 0 <= s < 64 && pos.board()[s] == Some(PieceType::Rook.spec_with_color(pos.side())) && has_bit(pos.pinned_bits(), s) == pin,
            rook_moves(froms@, occ@, mask@, k, pin).disjoint(a0),
            forall|t: int| #[trigger] has_bit(it.remaining()@, t) ==> has_bit(froms@, t),
            appended(move_list_moves(*dst), base).to_set() == a0 + rook_moves(froms@ & !it.remaining()@, occ@, mask@, k, pin),
        decreases it.remaining()@,
    {
        let ghost rem0 = it.remaining()@;
        match it.next() {
            None => {
                proof {
                    lemma_bit_ops();
                    assert(rook_moves(froms@ & !rem0, occ@, mask@, k, pin) =~= rook_moves(froms@, occ@, mask@, k, pin));
                }
                return;
            },
            Some(rook) => {
                let reach = rook_attacks(rook, occ);
                let moves = if pin {
                    let pin_ray = ray_past(king_sq, rook);
                    reach.and(mask).and(pin_ray)
                } else {
                    reach.and(mask)
                };
                let ghost done0 = rook_moves(froms@ & !rem0, occ@, mask@, k, pin);
                proof {
                    lemma_bit_ops();
                    assert(has_bit(froms@, rook as int));
                    assert forall|t: int| #[trigger] has_bit(moves@, t) == (rook_attack(rook as int, t, occ@) && has_bit(mask@, t) && (pin ==> past(k, rook as int, t))) by {
                        lemma_and_bit(reach@, mask@, t);
                        lemma_and_bit(reach@ & mask@, moves@, t);
                    }
                    let fm = from_moves(rook as int, moves@);
                    assert forall|m: u16| fm.contains(m) implies #[trigger] legal_set(pos).contains(m) && !a0.contains(m) && !done0.contains(m) by {
                        lemma_rook_legal(pos, mask@, m);
                        assert(rook_moves(froms@, occ@, mask@, k, pin).contains(m));
                    }
                    assert(fm.subset_of(legal_set(pos)));
                    assert(fm.disjoint(a0 + done0));
                }
                push_standards_from_square(dst, rook, moves, Ghost(pos), Ghost(base));
                proof {
                    let rem1 = it.remaining()@;
                    let done1 = rook_moves(froms@ & !rem1, occ@, mask@, k, pin);
                    let fm = from_moves(rook as int, moves@);
                    assert forall|m: u16| #[trigger] done1.contains(m) == (done0.contains(m) || fm.contains(m)) by {
                        lemma_and_bit(froms@, !rem1, packed_from(m));
                        lemma_and_bit(froms@, !rem0, packed_from(m));
                        lemma_bit_ops();
                    }
                    assert(done1 =~= done0 + fm);
                    assert(a0 + done1 =~= (a0 + done0) + fm);
                }
            },
        }
    }
}

/// Appends the legal rook moves: a pinned rook only along its pin.
fn generate_rooks(dst: &mut MoveList, pos: &Position, mask: Bitboard, Ghost(base): Ghost<int>)
    requires
        gen_ok(move_list_moves(*old(dst)), base, *pos),
        pos.wf(),
        target_mask(*pos, mask@),
        legal_of(*pos, PieceType::Rook).disjoint(appended(move_list_moves(*old(dst)), base).to_set()),
    ensures
        gen_ok(move_list_moves(*final(dst)), base, *pos),
        move_list_moves(*final(dst)).subrange(0, base) == move_list_moves(*old(dst)).subrange(0, base),
        appended(move_list_moves(*final(dst)), base).to_set() == appended(move_list_moves(*old(dst)), base).to_set() + legal_of(*pos, PieceType::Rook),
{
    let ghost a0 = appended(move_list_moves(*dst), base).to_set();
    let pinned = pos.pinned();
    let rooks = pos.piece_bb(PieceType::Rook.with_color(pos.stm()));

    let king_sq = pos.king_sq(pos.stm());
    let occ = pos.occ();

    let free = rooks.and(pinned.cmpl());
    let held = rooks.and(pinned);
    proof {
        lemma_bit_ops();
        lemma_rooks_complete(*pos, mask@, free@, held@);
    }
    push_rook_moves(dst, free, occ, mask, king_sq, false, Ghost(*pos), Ghost(base));
    push_rook_moves(dst, held, occ, mask, king_sq, true, Ghost(*pos), Ghost(base));
    proof {
        let occ0 = pos.occupied_bits();
        let k = pos.our_king();
        assert(a0 + rook_moves(free@, occ0, mask@, k, false) + rook_moves(held@, occ0, mask@, k, true) =~= a0 + legal_of(*pos, PieceType::Rook));
    }
}


/// The king of the side to move is never pinned.
pub proof fn lemma_king_not_pinned(pos: Position)
    requires
        pos.wf(),
    ensures
        !has_bit(pos.pinned_bits(), pos.our_king()),
{
    reveal(Position::attack_info_wf);
    let k = pos.our_king();
    assert(has_bit(pos.pinned_bits(), k) == pos.pinned_at(k));
    if pos.pinned_at(k) {
        let r = choose|r: int| #[trigger] pos.pins_at(r, k);
        assert(pos.pins_at(r, k));
    }
}

/// The legal king moves are those to the neighbouring squares that its own
/// side does not hold and the other side does not attack.
proof fn lemma_kings_complete(pos: Position, moves: u64)
    requires
        pos.wf(),
        forall|t: int| #[trigger] has_bit(moves, t) == (king_attack(pos.our_king(), t) && !pos.holds_color(t, pos.side()) && !has_bit(pos.threat_bits(), t)),
    ensures
        from_moves(pos.our_king(), moves) == legal_of(pos, PieceType::King),
{
    reveal(Position::legal_move);
    reveal(Position::piece_reaches);
    lemma_king_not_pinned(pos);
    let k = pos.our_king();
    let king = PieceType::King.spec_with_color(pos.side());
    assert(pos.king_ok(pos.side()));
    assert(pos.board()[k] == Some(king));
    assert forall|m: u16| #[trigger] from_moves(k, moves).contains(m) == legal_of(pos, PieceType::King).contains(m) by {
        if valid_packed(m) {
            lemma_unpack(m);
            let f = packed_from(m);
            if legal_of(pos, PieceType::King).contains(m) {
                Piece::lemma_parts(pos.board()[f]->0, king);
                assert(pos.board()[f] == Some(king));
                assert(f == k);
            }
        }
    }
    assert(from_moves(k, moves) =~= legal_of(pos, PieceType::King));
}

/// Appends the legal king moves: to the neighbouring squares of `mask`
/// that the other side does not attack.
fn generate_kings(dst: &mut MoveList, pos: &Position, mask: Bitboard, Ghost(base): Ghost<int>)
    requires
        gen_ok(move_list_moves(*old(dst)), base, *pos),
        pos.wf(),
        mask@ == !pos.color_bits(pos.side()),
        legal_of(*pos, PieceType::King).disjoint(appended(move_list_moves(*old(dst)), base).to_set()),
    ensures
        gen_ok(move_list_moves(*final(dst)), base, *pos),
        move_list_moves(*final(dst)).subrange(0, base) == move_list_moves(*old(dst)).subrange(0, base),
        appended(move_list_moves(*final(dst)), base).to_set() == appended(move_list_moves(*old(dst)), base).to_set() + legal_of(*pos, PieceType::King),
{
    let king_sq = pos.king_sq(pos.stm());
    let moves = king_attacks(king_sq).and(mask).and(pos.threats().cmpl());
    proof {
        lemma_bit_ops();
        assert forall|t: int| #[trigger] has_bit(moves@, t) == (king_attack(pos.our_king(), t) && !pos.holds_color(t, pos.side()) && !has_bit(pos.threat_bits(), t)) by {
            assert(has_bit(pos.color_bits(pos.side()), t) == pos.holds_color(t, pos.side()));
        }
        lemma_kings_complete(*pos, moves@);
    }
    push_standards_from_square(dst, king_sq, moves, Ghost(*pos), Ghost(base));
}


/// How the generator finds the pawn moves of the side to move: a push to an
/// empty square of the mask from a pawn that is free or pinned along its
/// king's file, or a capture on a square of the mask held by the other side
/// from a pawn that is not pinned, one file to the left or to the right;
/// promoting exactly on the last rank. These are the legal pawn moves.
proof fn lemma_pawn_point(pos: Position, mask: u64, pushable: u64, worthy: u64, pushed: u64, left: u64, right: u64, promo_rank: u64, m: u16)
    requires
        pos.wf(),
        target_mask(pos, mask),
        valid_packed(m),
        pos.board()[packed_from(m)] == Some(PieceType::Pawn.spec_with_color(pos.side())),
        forall|t: int| #[trigger] has_bit(promo_rank, t) == (0 <= t < 64 && rank_of(t) == spec_relative_rank(pos.side(), 7)),
        forall|s: int| #[trigger] has_bit(pushable, s) == (0 <= s < 64 && pos.board()[s] == Some(PieceType::Pawn.spec_with_color(pos.side())) && (!has_bit(pos.pinned_bits(), s) || file_of(s) == file_of(pos.our_king()))),
        forall|s: int| #[trigger] has_bit(worthy, s) == (0 <= s < 64 && pos.board()[s] == Some(PieceType::Pawn.spec_with_color(pos.side())) && !has_bit(pos.pinned_bits(), s)),
        forall|t: int| #[trigger] has_bit(pushed, t) == (moved_from(pushable, t, 0, forward(pos.side())) && pos.board()[t] is None && has_bit(mask, t)),
        forall|t: int| #[trigger] has_bit(left, t) == (moved_from(worthy, t, -1, forward(pos.side())) && has_bit(mask, t) && pos.holds_color(t, pos.them())),
        forall|t: int| #[trigger] has_bit(right, t) == (moved_from(worthy, t, 1, forward(pos.side())) && has_bit(mask, t) && pos.holds_color(t, pos.them())),
    ensures
        pos.legal_move(m) == (packed_promo(m) == has_bit(promo_rank, packed_to(m)) && ((packed_from(m) == packed_to(m) - 8 * forward(pos.side()) && has_bit(pushed, packed_to(m))) || (packed_from(m) == packed_to(m) - (8 * forward(pos.side()) - 1) && has_bit(left, packed_to(m))) || (packed_from(m) == packed_to(m) - (8 * forward(pos.side()) + 1) && has_bit(right, packed_to(m))))),
{
    reveal(Position::legal_move);
    reveal(Position::legal_pawn_move);
    lemma_unpack(m);
    let side = pos.side();
    let fwd = forward(side);
    let f = packed_from(m);
    let t = packed_to(m);
    let k = pos.our_king();
    assert(pos.king_ok(side));
    assert(pos.board()[k] == Some(PieceType::King.spec_with_color(side)));
    assert(has_bit(mask, t) == (!pos.holds_color(t, side) && (pos.checker_bits() != 0 ==> popcount_spec(pos.checker_bits()) <= 1 && (between(k, pos.checker_square(), t) || t == pos.checker_square()))));
    assert(pos.board().len() == 64);
    let legal = pos.legal_move(m);
    let push = f == t - 8 * fwd && has_bit(pushed, t);
    let lcap = f == t - (8 * fwd - 1) && has_bit(left, t);
    let rcap = f == t - (8 * fwd + 1) && has_bit(right, t);
    if legal {
        assert(pos.legal_pawn_move(f, t, packed_promo(m)));
        if has_bit(pos.pinned_bits(), f) {
            assert(past(k, f, t));
            lemma_past_line(k, f, t);
        }
        if file_of(f) == file_of(t) {
            assert(rank_of(t) - rank_of(f) == fwd);
            lemma_offset(t, 0, fwd);
            lemma_square_coords(t - 8 * fwd, f);
            assert(has_bit(pushable, f));
            assert(push);
        } else {
            assert(rank_of(t) - rank_of(f) == fwd);
            if file_of(t) == file_of(f) - 1 {
                lemma_offset(t, -1, fwd);
                lemma_square_coords(t - 8 * fwd + 1, f);
                assert(has_bit(worthy, f));
                assert(lcap);
            } else {
                lemma_offset(t, 1, fwd);
                lemma_square_coords(t - 8 * fwd - 1, f);
                assert(has_bit(worthy, f));
                assert(rcap);
            }
        }
    }
    if push {
        lemma_offset(t, 0, fwd);
        if has_bit(pos.pinned_bits(), f) {
            assert(file_of(f) == file_of(k));
            lemma_square_coords(f, k);
            lemma_square_coords(t, k);
            assert(past(k, f, t));
        }
    }
    if lcap {
        lemma_offset(t, -1, fwd);
    }
    if rcap {
        lemma_offset(t, 1, fwd);
    }
}


/// The pawn moves to the squares of `to_squares`, each from the square
/// `offset` before it, promoting exactly on the squares of `promo_rank`.
pub open spec fn pawn_moves(offset: int, to_squares: u64, promo_rank: u64) -> Set<u16> {
    offset_moves(offset, to_squares & !promo_rank, false) + offset_moves(offset, to_squares & promo_rank, true)
}

/// The pushes and the captures to either side that the generator finds are
/// the legal pawn moves.
proof fn lemma_pawns_complete(pos: Position, mask: u64, pushable: u64, worthy: u64, pushed: u64, left: u64, right: u64, promo_rank: u64)
    requires
        pos.wf(),
        target_mask(pos, mask),
        forall|t: int| #[trigger] has_bit(promo_rank, t) == (0 <= t < 64 && rank_of(t) == spec_relative_rank(pos.side(), 7)),
        forall|s: int| #[trigger] has_bit(pushable, s) == (0 <= s < 64 && pos.board()[s] == Some(PieceType::Pawn.spec_with_color(pos.side())) && (!has_bit(pos.pinned_bits(), s) || file_of(s) == file_of(pos.our_king()))),
        forall|s: int| #[trigger] has_bit(worthy, s) == (0 <= s < 64 && pos.board()[s] == Some(PieceType::Pawn.spec_with_color(pos.side())) && !has_bit(pos.pinned_bits(), s)),
        forall|t: int| #[trigger] has_bit(pushed, t) == (moved_from(pushable, t, 0, forward(pos.side())) && pos.board()[t] is None && has_bit(mask, t)),
        forall|t: int| #[trigger] has_bit(left, t) == (moved_from(worthy, t, -1, forward(pos.side())) && has_bit(mask, t) && pos.holds_color(t, pos.them())),
        forall|t: int| #[trigger] has_bit(right, t) == (moved_from(worthy, t, 1, forward(pos.side())) && has_bit(mask, t) && pos.holds_color(t, pos.them())),
    ensures
        pawn_moves(8 * forward(pos.side()), pushed, promo_rank) + pawn_moves(8 * forward(pos.side()) - 1, left, promo_rank) + pawn_moves(8 * forward(pos.side()) + 1, right, promo_rank) == legal_of(pos, PieceType::Pawn),
{
    let fwd = forward(pos.side());
    let pawn = PieceType::Pawn.spec_with_color(pos.side());
    let u = pawn_moves(8 * fwd, pushed, promo_rank) + pawn_moves(8 * fwd - 1, left, promo_rank) + pawn_moves(8 * fwd + 1, right, promo_rank);
    assert forall|m: u16| #[trigger] u.contains(m) == legal_of(pos, PieceType::Pawn).contains(m) by {
        if valid_packed(m) {
            lemma_unpack(m);
            let f = packed_from(m);
            let t = packed_to(m);
            lemma_and_bit(pushed, !promo_rank, t);
            lemma_and_bit(pushed, promo_rank, t);
            lemma_and_bit(left, !promo_rank, t);
            lemma_and_bit(left, promo_rank, t);
            lemma_and_bit(right, !promo_rank, t);
            lemma_and_bit(right, promo_rank, t);
            lemma_bit_ops();
            if pos.board()[f] == Some(pawn) {
                lemma_pawn_point(pos, mask, pushable, worthy, pushed, left, right, promo_rank, m);
            } else {
                if legal_of(pos, PieceType::Pawn).contains(m) {
                    pos.lemma_legal_basics(m);
                    Piece::lemma_parts(pos.board()[f]->0, pawn);
                }
                if has_bit(pushed, t) {
                    assert(has_bit(pushable, t - 8 * fwd));
                }
                if has_bit(left, t) {
                    assert(has_bit(worthy, t - 8 * fwd + 1));
                }
                if has_bit(right, t) {
                    assert(has_bit(worthy, t - 8 * fwd - 1));
                }
            }
        }
    }
    assert(u =~= legal_of(pos, PieceType::Pawn));
}


/// Moves found at different offsets, or with different promotion flags,
/// are different moves.
proof fn lemma_offset_disjoint(o1: int, x: u64, p1: bool, o2: int, y: u64, p2: bool)
    requires
        o1 != o2 || p1 != p2,
    ensures
        offset_moves(o1, x, p1).disjoint(offset_moves(o2, y, p2)),
{
}

/// Appends the legal pawn moves: pushes, and captures to either side, each
/// a promotion exactly when it reaches the last rank. A pinned pawn only
/// pushes, and only along its king's file.
#[verifier::rlimit(40)]
fn generate_pawns(dst: &mut MoveList, pos: &Position, mask: Bitboard, Ghost(base): Ghost<int>)
    requires
        gen_ok(move_list_moves(*old(dst)), base, *pos),
        pos.wf(),
        target_mask(*pos, mask@),
        legal_of(*pos, PieceType::Pawn).disjoint(appended(move_list_moves(*old(dst)), base).to_set()),
    ensures
        gen_ok(move_list_moves(*final(dst)), base, *pos),
        move_list_moves(*final(dst)).subrange(0, base) == move_list_moves(*old(dst)).subrange(0, base),
        appended(move_list_moves(*final(dst)), base).to_set() == appended(move_list_moves(*old(dst)), base).to_set() + legal_of(*pos, PieceType::Pawn),
{
    let ghost a0 = appended(move_list_moves(*dst), base).to_set();
    let ghost s0 = move_list_moves(*dst);
    let stm = pos.stm();
    let promo_rank = match stm {
        Color::White => Bitboard::rank_bb(7),
        Color::Black => Bitboard::rank_bb(0),
    };

    let (forward_offset, left_offset, right_offset): (i32, i32, i32) = match stm {
        Color::White => (8, 7, 9),
        Color::Black => (-8, -9, -7),
    };

    let king_sq = pos.king_sq(stm);

    let pinned = pos.pinned();
    let pawns = pos.piece_bb(PieceType::Pawn.with_color(stm));

    let forward_pin_mask = Bitboard::file_bb(king_sq.file());
    let pushable_pawns = pawns.and(pinned.cmpl()).or(pawns.and(forward_pin_mask));

    let occ = pos.occ();
    let pushed = pushable_pawns.shift_up_relative(stm).and(occ.cmpl()).and(mask);

    // pinned pawns cannot capture
    let capture_worthy_pawns = pawns.and(pinned.cmpl());
    let capture_mask = mask.and(pos.color_bb(stm.flip()));

    let left_captures = capture_worthy_pawns.shift_up_left_relative(stm).and(capture_mask);
    let right_captures = capture_worthy_pawns.shift_up_right_relative(stm).and(capture_mask);

    let ghost fwd = forward(pos.side());
    let ghost pr = promo_rank@;
    let ghost ps = offset_moves(8 * fwd, pushed@ & !pr, false);
    let ghost pp = offset_moves(8 * fwd, pushed@ & pr, true);
    let ghost ls = offset_moves(8 * fwd - 1, left_captures@ & !pr, false);
    let ghost lp = offset_moves(8 * fwd - 1, left_captures@ & pr, true);
    let ghost rs = offset_moves(8 * fwd + 1, right_captures@ & !pr, false);
    let ghost rp = offset_moves(8 * fwd + 1, right_captures@ & pr, true);
    proof {
        lemma_bit_ops();
        let pawn = PieceType::Pawn.spec_with_color(pos.side());
        assert forall|t: int| #[trigger] has_bit(pushed@, t) == (moved_from(pushable_pawns@, t, 0, fwd) && pos.board()[t] is None && has_bit(mask@, t)) by {
            assert(fwd * 1 == fwd);
        }
        assert forall|t: int| #[trigger] has_bit(left_captures@, t) == (moved_from(capture_worthy_pawns@, t, -1, fwd) && has_bit(mask@, t) && pos.holds_color(t, pos.them())) by {
            assert(fwd * 1 == fwd);
            assert(has_bit(pos.color_bits(pos.them()), t) == pos.holds_color(t, pos.them()));
        }
        assert forall|t: int| #[trigger] has_bit(right_captures@, t) == (moved_from(capture_worthy_pawns@, t, 1, fwd) && has_bit(mask@, t) && pos.holds_color(t, pos.them())) by {
            assert(fwd * 1 == fwd);
            assert(has_bit(pos.color_bits(pos.them()), t) == pos.holds_color(t, pos.them()));
        }
        lemma_pawns_complete(*pos, mask@, pushable_pawns@, capture_worthy_pawns@, pushed@, left_captures@, right_captures@, pr);
        assert(ps + pp + ls + lp + rs + rp =~= pawn_moves(8 * fwd, pushed@, pr) + pawn_moves(8 * fwd - 1, left_captures@, pr) + pawn_moves(8 * fwd + 1, right_captures@, pr));
        lemma_offset_disjoint(8 * fwd, pushed@ & !pr, false, 8 * fwd, pushed@ & pr, true);
        lemma_offset_disjoint(8 * fwd - 1, left_captures@ & !pr, false, 8 * fwd, pushed@ & !pr, false);
        lemma_offset_disjoint(8 * fwd - 1, left_captures@ & !pr, false, 8 * fwd, pushed@ & pr, true);
        lemma_offset_disjoint(8 * fwd - 1, left_captures@ & pr, true, 8 * fwd, pushed@ & !pr, false);
        lemma_offset_disjoint(8 * fwd - 1, left_captures@ & pr, true, 8 * fwd, pushed@ & pr, true);
        lemma_offset_disjoint(8 * fwd - 1, left_captures@ & pr, true, 8 * fwd - 1, left_captures@ & !pr, false);
        lemma_offset_disjoint(8 * fwd + 1, right_captures@ & !pr, false, 8 * fwd, pushed@ & !pr, false);
        lemma_offset_disjoint(8 * fwd + 1, right_captures@ & !pr, false, 8 * fwd, pushed@ & pr, true);
        lemma_offset_disjoint(8 * fwd + 1, right_captures@ & !pr, false, 8 * fwd - 1, left_captures@ & !pr, false);
        lemma_offset_disjoint(8 * fwd + 1, right_captures@ & !pr, false, 8 * fwd - 1, left_captures@ & pr, true);
        lemma_offset_disjoint(8 * fwd + 1, right_captures@ & pr, true, 8 * fwd, pushed@ & !pr, false);
        lemma_offset_disjoint(8 * fwd + 1, right_captures@ & pr, true, 8 * fwd, pushed@ & pr, true);
        lemma_offset_disjoint(8 * fwd + 1, right_captures@ & pr, true, 8 * fwd - 1, left_captures@ & !pr, false);
        lemma_offset_disjoint(8 * fwd + 1, right_captures@ & pr, true, 8 * fwd - 1, left_captures@ & pr, true);
        lemma_offset_disjoint(8 * fwd + 1, right_captures@ & pr, true, 8 * fwd + 1, right_captures@ & !pr, false);
        assert(forall|t: int| #[trigger] has_bit(pushed@, t) ==> 0 <= t - 8 * fwd < 64);
        assert(forall|t: int| #[trigger] has_bit(left_captures@, t) ==> 0 <= t - (8 * fwd - 1) < 64);
        assert(forall|t: int| #[trigger] has_bit(right_captures@, t) ==> 0 <= t - (8 * fwd + 1) < 64);
        assert(legal_of(*pos, PieceType::Pawn).subset_of(legal_set(*pos)));
        assert(ps.subset_of(legal_set(*pos)));
        assert(pp.subset_of(legal_set(*pos)));
        assert(ls.subset_of(legal_set(*pos)));
        assert(lp.subset_of(legal_set(*pos)));
        assert(rs.subset_of(legal_set(*pos)));
        assert(rp.subset_of(legal_set(*pos)));
        assert(ps.disjoint(a0));
        assert(pp.disjoint(a0 + ps));
        assert(ls.disjoint(a0 + ps + pp));
        assert(lp.disjoint(a0 + ps + pp + ls));
        assert(rs.disjoint(a0 + ps + pp + ls + lp));
        assert(rp.disjoint(a0 + ps + pp + ls + lp + rs));
    }

    push_standards_with_offset(dst, forward_offset, pushed.and(promo_rank.cmpl()), Ghost(*pos), Ghost(base));
    push_promos_with_offset(dst, forward_offset, pushed.and(promo_rank), Ghost(*pos), Ghost(base));

    push_standards_with_offset(dst, left_offset, left_captures.and(promo_rank.cmpl()), Ghost(*pos), Ghost(base));
    push_promos_with_offset(dst, left_offset, left_captures.and(promo_rank), Ghost(*pos), Ghost(base));

    push_standards_with_offset(dst, right_offset, right_captures.and(promo_rank.cmpl()), Ghost(*pos), Ghost(base));
    push_promos_with_offset(dst, right_offset, right_captures.and(promo_rank), Ghost(*pos), Ghost(base));
    proof {
        assert(a0 + ps + pp + ls + lp + rs + rp =~= a0 + legal_of(*pos, PieceType::Pawn));
    }
}


/// The legal moves are those of the six piece types.
proof fn lemma_legal_by_type(pos: Position)
    ensures
        legal_set(pos) == legal_of(pos, PieceType::Pawn) + legal_of(pos, PieceType::Alfil) + legal_of(pos, PieceType::Ferz) + legal_of(pos, PieceType::Knight) + legal_of(pos, PieceType::Rook) + legal_of(pos, PieceType::King),
        forall|a: PieceType, b: PieceType| a != b ==> #[trigger] legal_of(pos, a).disjoint(#[trigger] legal_of(pos, b)),
{
    let u = legal_of(pos, PieceType::Pawn) + legal_of(pos, PieceType::Alfil) + legal_of(pos, PieceType::Ferz) + legal_of(pos, PieceType::Knight) + legal_of(pos, PieceType::Rook) + legal_of(pos, PieceType::King);
    assert forall|m: u16| #[trigger] legal_set(pos).contains(m) == u.contains(m) by {
        if legal_set(pos).contains(m) {
            let pt = pos.board()[packed_from(m)]->0.spec_piece_type();
            assert(legal_of(pos, pt).contains(m));
        }
    }
    assert(legal_set(pos) =~= u);
}

/// Out of a double check only the king moves.
proof fn lemma_double_check(pos: Position)
    requires
        popcount_spec(pos.checker_bits()) > 1,
    ensures
        legal_set(pos) == legal_of(pos, PieceType::King),
{
    reveal(Position::legal_move);
    lemma_popcount_one(pos.checker_bits());
    assert(pos.checker_bits() != 0);
    assert forall|m: u16| #[trigger] legal_set(pos).contains(m) == legal_of(pos, PieceType::King).contains(m) by {
    }
    assert(legal_set(pos) =~= legal_of(pos, PieceType::King));
}

/// Two squares with a square between them share a line and stand at least
/// two squares apart.
pub proof fn lemma_between_apart(a: int, b: int, x: int)
    requires
        between(a, b, x),
    ensures
        (file_of(a) == file_of(b) && abs(rank_diff(a, b)) >= 2) || (rank_of(a) == rank_of(b) && abs(file_diff(a, b)) >= 2),
{
}

/// Out of a check by one piece, the checker's square and the squares
/// between it and the king, which are empty, make the target mask.
proof fn lemma_check_mask(pos: Position, mask: u64)
    requires
        pos.wf(),
        pos.checker_bits() != 0,
        popcount_spec(pos.checker_bits()) <= 1,
        forall|t: int| #[trigger] has_bit(mask, t) == (has_bit(pos.checker_bits(), t) || between(pos.our_king(), pos.checker_square(), t)),
    ensures
        target_mask(pos, mask),
{
    reveal(Position::attack_info_wf);
    let x = pos.checker_bits();
    let c = pos.checker_square();
    let k = pos.our_king();
    let occ = pos.occupied_bits();
    lemma_popcount_one(x);
    lemma_lowest_bit(x);
    let s = choose|s: int| #[trigger] only_bit_below(x, s, 64);
    assert(only_bit_below(x, s, 64));
    assert(has_bit(x, c));
    assert(s == c);
    assert(has_bit(x, c) == pos.checker_at(c));
    assert(pos.attacks_from(c, pos.them(), k, occ));
    assert(pos.king_ok(pos.side()));
    assert(0 <= k < 64);
    assert forall|t: int| 0 <= t < 64 implies #[trigger] has_bit(mask, t) == (!pos.holds_color(t, pos.side()) && (x != 0 ==> popcount_spec(x) <= 1 && (between(k, c, t) || t == c))) by {
        assert(has_bit(x, t) == (t == c));
        if between(k, c, t) {
            lemma_between_apart(k, c, t);
            lemma_between_symmetric(k, c, t);
            let p = pos.board()[c]->0;
            assert(piece_attack(p, c, k, occ));
            assert(p.spec_piece_type() == PieceType::Rook);
            lemma_rook_attack_between(c, k, occ);
            assert(!has_bit(occ, t));
            lemma_bit_ops();
            assert(has_bit(pos.color_bits(pos.side()), t) == pos.holds_color(t, pos.side()));
            assert(has_bit(pos.color_bits(pos.them()), t) == pos.holds_color(t, pos.them()));
            assert(pos.side() == Color::White || pos.side() == Color::Black);
        }
    }
}

/// Appends the legal moves of `pos`, each once, after the moves the list
/// already holds, which stay as they were.
pub fn generate_all(dst: &mut MoveList, pos: &Position)
    requires
        pos.wf(),
        move_list_moves(*old(dst)).len() + legal_set(*pos).len() <= 128,
    ensures
        move_list_moves(*final(dst)).subrange(0, count(move_list_moves(*old(dst)))) == move_list_moves(*old(dst)),
        appended(move_list_moves(*final(dst)), count(move_list_moves(*old(dst)))).no_duplicates(),
        appended(move_list_moves(*final(dst)), count(move_list_moves(*old(dst)))).to_set() == legal_set(*pos),
        move_list_moves(*final(dst)).len() == move_list_moves(*old(dst)).len() + legal_set(*pos).len(),
        move_list_moves(*old(dst)).len() == 0 ==> move_list_moves(*final(dst)).no_duplicates(),
{
    let ghost s0 = move_list_moves(*dst);
    let ghost base = count(s0);
    proof {
        lemma_legal_set_finite(*pos);
        lemma_legal_by_type(*pos);
        assert(appended(s0, base) =~= Seq::<u16>::empty());
        assert(appended(s0, base).to_set() =~= Set::<u16>::empty());
        assert(s0.subrange(0, base) =~= s0);
    }
    let king_mask = pos.color_bb(pos.stm()).cmpl();
    let mut mask = king_mask;

    if pos.in_check() {
        if pos.checkers().popcount() > 1 {
            proof {
                lemma_double_check(*pos);
            }
            generate_kings(dst, pos, king_mask, Ghost(base));
            proof {
                let s1 = move_list_moves(*dst);
                assert(appended(s1, base).to_set() =~= legal_set(*pos));
                appended(s1, base).unique_seq_to_set();
                assert(s1.subrange(0, base) =~= s0);
                lemma_generated(*pos, s0, s1);
            }
            return;
        }

        let checker = pos.checkers().lsb().unwrap();
        mask = pos.checkers().or(ray_between(pos.king_sq(pos.stm()), checker));
        proof {
            lemma_bit_ops();
            lemma_check_mask(*pos, mask@);
        }
    } else {
        proof {
            lemma_bit_ops();
            assert forall|t: int| 0 <= t < 64 implies #[trigger] has_bit(mask@, t) == !pos.holds_color(t, pos.side()) by {
                assert(has_bit(pos.color_bits(pos.side()), t) == pos.holds_color(t, pos.side()));
            }
        }
    }

    generate_pawns(dst, pos, mask, Ghost(base));
    generate_leapers(dst, pos, mask, Ghost(base));
    generate_rooks(dst, pos, mask, Ghost(base));
    generate_kings(dst, pos, king_mask, Ghost(base));
    proof {
        let s1 = move_list_moves(*dst);
        assert(appended(s1, base).to_set() =~= legal_set(*pos));
        appended(s1, base).unique_seq_to_set();
        assert(s1.subrange(0, base) =~= s0);
        lemma_generated(*pos, s0, s1);
    }
}

/// Moves generated into an empty list are the list itself, each move once.
proof fn lemma_generated(pos: Position, before: Seq<u16>, after: Seq<u16>)
    requires
        after.len() >= before.len(),
        appended(after, count(before)).no_duplicates(),
    ensures
        before.len() == 0 ==> after.no_duplicates(),
{
    if before.len() == 0 {
        assert(appended(after, 0) =~= after);
    }
}

/// A list of the legal moves of `pos`, such as `generate_all` fills from
/// empty, holds a move exactly when the move is legal in `pos`.
pub proof fn lemma_holds_exactly_legal(pos: Position, moves: Seq<u16>, m: u16)
    requires
        moves.to_set() == legal_set(pos),
        valid_packed(m),
    ensures
        moves.contains(m) == pos.legal_move(m),
{
    assert(moves.to_set().contains(m) == moves.contains(m));
}

/// The legal moves of `pos` whose packed form is below `n`.
pub open spec fn legal_below(pos: Position, n: int) -> Set<u16> {
    Set::new(|m: u16| legal_set(pos).contains(m) && m < n)
}

/// The number of legal moves of `pos`, found by testing every packed move;
/// a caller can check with it that the moves fit a move list.
pub fn legal_move_count(pos: &Position) -> (r: usize)
    ensures
        r == legal_set(*pos).len(),
{
    let mut count: usize = 0;
    let mut raw: u16 = 1;
    proof {
        lemma_legal_set_finite(*pos);
        assert(legal_below(*pos, 1) =~= Set::<u16>::empty());
    }
    while raw < 8192
        invariant
            1 <= raw <= 8192,
            legal_set(*pos).finite(),
            legal_below(*pos, raw as int).finite(),
            count == legal_below(*pos, raw as int).len(),
            count <= raw,
        decreases 8192 - raw,
    {
        let ghost before = legal_below(*pos, raw as int);
        let mv = Move::from_raw(raw).unwrap();
        let legal = pos.is_legal(mv);
        proof {
            let after = legal_below(*pos, raw as int + 1);
            if legal {
                assert(after =~= before.insert(raw));
                assert(!before.contains(raw));
            } else {
                assert(after =~= before);
            }
            vstd::set_lib::lemma_len_subset(after, legal_set(*pos));
        }
        if legal {
            count = count + 1;
        }
        raw = raw + 1;
    }
    proof {
        assert(legal_below(*pos, 8192) =~= legal_set(*pos));
    }
    count
}

} // verus!
