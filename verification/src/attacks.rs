//! The squares each piece attacks, and the geometry that says which.
use crate::bitboard::{has_bit, moved_from, single, forward, lemma_bit_ops, lemma_masks, Bitboard};
use crate::core_types::{file_of, rank_of, Color, Direction, Piece, PieceType, Square};
use vstd::prelude::*;

verus! {

pub open spec fn abs(x: int) -> int {
    if x < 0 {
        -x
    } else {
        x
    }
}

/// Files from `s` to `t`.
pub open spec fn file_diff(s: int, t: int) -> int {
    file_of(t) - file_of(s)
}

/// Ranks from `s` to `t`.
pub open spec fn rank_diff(s: int, t: int) -> int {
    rank_of(t) - rank_of(s)
}

/// A pawn of `color` on `s` attacks `t`: one file aside, one rank forward.
pub open spec fn pawn_attack(color: Color, s: int, t: int) -> bool {
    0 <= t < 64 && abs(file_diff(s, t)) == 1 && rank_diff(s, t) == forward(color)
}

/// An alfil on `s` attacks `t`: it leaps two squares diagonally.
pub open spec fn alfil_attack(s: int, t: int) -> bool {
    0 <= t < 64 && abs(file_diff(s, t)) == 2 && abs(rank_diff(s, t)) == 2
}

/// A ferz on `s` attacks `t`: one square diagonally.
pub open spec fn ferz_attack(s: int, t: int) -> bool {
    0 <= t < 64 && abs(file_diff(s, t)) == 1 && abs(rank_diff(s, t)) == 1
}

/// A knight on `s` attacks `t`.
pub open spec fn knight_attack(s: int, t: int) -> bool {
    0 <= t < 64 && ((abs(file_diff(s, t)) == 1 && abs(rank_diff(s, t)) == 2) || (abs(
        file_diff(s, t),
    ) == 2 && abs(rank_diff(s, t)) == 1))
}

/// A king on `s` attacks `t`: any neighbouring square.
pub open spec fn king_attack(s: int, t: int) -> bool {
    0 <= t < 64 && t != s && abs(file_diff(s, t)) <= 1 && abs(rank_diff(s, t)) <= 1
}

/// `t` shares a rank or a file with `s` and is not `s`.
pub open spec fn rook_line(s: int, t: int) -> bool {
    0 <= t < 64 && t != s && (rank_of(t) == rank_of(s) || file_of(t) == file_of(s))
}

/// `x` lies on the board in direction `d` from `s`.
pub open spec fn in_dir(s: int, x: int, d: Direction) -> bool {
    0 <= x < 64 && match d {
        Direction::Up => file_of(x) == file_of(s) && rank_of(x) > rank_of(s),
        Direction::Down => file_of(x) == file_of(s) && rank_of(x) < rank_of(s),
        Direction::Left => rank_of(x) == rank_of(s) && file_of(x) < file_of(s),
        Direction::Right => rank_of(x) == rank_of(s) && file_of(x) > file_of(s),
    }
}

/// How many steps in direction `d` lead from `s` to `x`.
pub open spec fn dist(s: int, x: int, d: Direction) -> int {
    match d {
        Direction::Up => rank_of(x) - rank_of(s),
        Direction::Down => rank_of(s) - rank_of(x),
        Direction::Left => file_of(s) - file_of(x),
        Direction::Right => file_of(x) - file_of(s),
    }
}

/// A rook on `s` reaches `x` in direction `d`: no square of `occ` stands
/// strictly between them.
pub open spec fn ray_reach(s: int, x: int, occ: u64, d: Direction) -> bool {
    &&& in_dir(s, x, d)
    &&& forall|y: int|
        #![trigger has_bit(occ, y), in_dir(s, y, d)]
        in_dir(s, y, d) && dist(s, y, d) < dist(s, x, d) ==> !has_bit(occ, y)
}

/// Attacks run both ways: a leaper or a king on `s` attacks `t` exactly when
/// one on `t` attacks `s`, and a pawn of one side attacks a square exactly
/// when a pawn of the other side there would attack back.
pub proof fn lemma_attacks_symmetric(s: int, t: int)
    requires
        0 <= s < 64,
        0 <= t < 64,
    ensures
        alfil_attack(s, t) == alfil_attack(t, s),
        ferz_attack(s, t) == ferz_attack(t, s),
        knight_attack(s, t) == knight_attack(t, s),
        king_attack(s, t) == king_attack(t, s),
        rook_line(s, t) == rook_line(t, s),
        pawn_attack(Color::White, s, t) == pawn_attack(Color::Black, t, s),
{
}

/// A rook on `s` attacks `t` when the squares of `occ` block it: `t` is on
/// its rank or file and nothing stands strictly between.
pub open spec fn rook_attack(s: int, t: int, occ: u64) -> bool {
    ray_reach(s, t, occ, Direction::Up) || ray_reach(s, t, occ, Direction::Down) || ray_reach(
        s,
        t,
        occ,
        Direction::Left,
    ) || ray_reach(s, t, occ, Direction::Right)
}

/// `t` lies `df` files and `dr` ranks away from `s`.
pub open spec fn step_to(s: int, t: int, df: int, dr: int) -> bool {
    0 <= t < 64 && file_diff(s, t) == df && rank_diff(s, t) == dr
}

/// A rook on `s` attacks `t` exactly when a rook on `t` attacks `s`, over
/// the same occupied squares.
pub proof fn lemma_rook_symmetric(s: int, t: int, occ: u64)
    requires
        0 <= s < 64,
        0 <= t < 64,
    ensures
        rook_attack(s, t, occ) == rook_attack(t, s, occ),
{
    lemma_ray_reverse(s, t, occ, Direction::Up, Direction::Down);
    lemma_ray_reverse(s, t, occ, Direction::Down, Direction::Up);
    lemma_ray_reverse(s, t, occ, Direction::Left, Direction::Right);
    lemma_ray_reverse(s, t, occ, Direction::Right, Direction::Left);
}

/// A ray from `s` reaches `t` exactly when the ray the other way from `t`
/// reaches `s`: the squares between are the same.
proof fn lemma_ray_reverse(s: int, t: int, occ: u64, d: Direction, e: Direction)
    requires
        0 <= s < 64,
        0 <= t < 64,
        (d == Direction::Up && e == Direction::Down) || (d == Direction::Down && e == Direction::Up)
            || (d == Direction::Left && e == Direction::Right) || (d == Direction::Right && e == Direction::Left),
    ensures
        ray_reach(s, t, occ, d) == ray_reach(t, s, occ, e),
{
    if ray_reach(s, t, occ, d) {
        assert forall|y: int| in_dir(t, y, e) && dist(t, y, e) < dist(t, s, e) implies !has_bit(occ, y) by {
            assert(in_dir(s, y, d) && dist(s, y, d) < dist(s, t, d));
        }
    }
    if ray_reach(t, s, occ, e) {
        assert forall|y: int| in_dir(s, y, d) && dist(s, y, d) < dist(s, t, d) implies !has_bit(occ, y) by {
            assert(in_dir(t, y, e) && dist(t, y, e) < dist(t, s, e));
        }
    }
}

/// Moving from a square on the board by `df` files and `dr` ranks, while the
/// file and rank stay on the board, gives the square `8 * dr + df` further.
pub proof fn lemma_offset(t: int, df: int, dr: int)
    requires
        0 <= t < 64,
        0 <= file_of(t) - df < 8,
        0 <= rank_of(t) - dr < 8,
    ensures
        0 <= t - 8 * dr - df < 64,
        file_of(t - 8 * dr - df) == file_of(t) - df,
        rank_of(t - 8 * dr - df) == rank_of(t) - dr,
{
    let u = t - 8 * dr - df;
    assert(t == 8 * rank_of(t) + file_of(t));
    assert(u == 8 * (rank_of(t) - dr) + (file_of(t) - df));
    vstd::arithmetic::div_mod::lemma_fundamental_div_mod_converse(
        u,
        8,
        rank_of(t) - dr,
        file_of(t) - df,
    );
}

/// A square is the only one with its file and rank.
pub proof fn lemma_square_coords(s: int, t: int)
    requires
        0 <= s < 64,
        0 <= t < 64,
    ensures
        (file_of(s) == file_of(t) && rank_of(s) == rank_of(t)) <==> s == t,
{
    assert(s == 8 * rank_of(s) + file_of(s));
    assert(t == 8 * rank_of(t) + file_of(t));
}

/// The one-square board, read as the squares zero steps away.
pub proof fn lemma_single_steps(s: int)
    requires
        0 <= s < 64,
    ensures
        forall|u: int| #[trigger] has_bit(single(s), u) == step_to(s, u, 0, 0),
{
    lemma_masks();
    assert forall|u: int| #[trigger] has_bit(single(s), u) == step_to(s, u, 0, 0) by {
        if 0 <= u < 64 {
            lemma_square_coords(s, u);
        }
    }
}

/// A further step in the same general direction adds up.
pub proof fn lemma_steps(x: u64, s: int, dfa: int, dra: int, dfb: int, drb: int)
    requires
        0 <= s < 64,
        -1 <= dfa <= 1,
        -1 <= dra <= 1,
        -1 <= dfb <= 1,
        -1 <= drb <= 1,
        dfa * dfb >= 0,
        dra * drb >= 0,
        forall|u: int| #[trigger] has_bit(x, u) == step_to(s, u, dfa, dra),
    ensures
        forall|t: int| #[trigger] moved_from(x, t, dfb, drb) == step_to(s, t, dfa + dfb, dra + drb),
{
    assert forall|t: int| #[trigger] moved_from(x, t, dfb, drb) == step_to(s, t, dfa + dfb, dra + drb) by {
        if 0 <= t < 64 && 0 <= file_of(t) - dfb < 8 && 0 <= rank_of(t) - drb < 8 {
            lemma_offset(t, dfb, drb);
        }
        if step_to(s, t, dfa + dfb, dra + drb) {
            assert(0 <= file_of(t) - dfb < 8);
            assert(0 <= rank_of(t) - drb < 8);
            lemma_offset(t, dfb, drb);
        }
    }
}

/// The first step from a single square.
pub proof fn lemma_first_step(s: int, df: int, dr: int)
    requires
        0 <= s < 64,
        -1 <= df <= 1,
        -1 <= dr <= 1,
    ensures
        forall|t: int| #[trigger] moved_from(single(s), t, df, dr) == step_to(s, t, df, dr),
{
    lemma_single_steps(s);
    lemma_steps(single(s), s, 0, 0, df, dr);
}

/// What a piece on `s` attacks, with the squares of `occ` blocking the rook.
pub open spec fn piece_attack(piece: Piece, s: int, t: int, occ: u64) -> bool {
    match piece.spec_piece_type() {
        PieceType::Pawn => pawn_attack(piece.spec_color(), s, t),
        PieceType::Alfil => alfil_attack(s, t),
        PieceType::Ferz => ferz_attack(s, t),
        PieceType::Knight => knight_attack(s, t),
        PieceType::Rook => rook_attack(s, t, occ),
        PieceType::King => king_attack(s, t),
    }
}

/// What a piece on `s` attacks on an empty board.
pub open spec fn piece_pseudo_attack(piece: Piece, s: int, t: int) -> bool {
    match piece.spec_piece_type() {
        PieceType::Pawn => pawn_attack(piece.spec_color(), s, t),
        PieceType::Alfil => alfil_attack(s, t),
        PieceType::Ferz => ferz_attack(s, t),
        PieceType::Knight => knight_attack(s, t),
        PieceType::Rook => rook_line(s, t),
        PieceType::King => king_attack(s, t),
    }
}

/// Squares `t` that a pawn of `color` on some square of `pawns` attacks.
pub open spec fn pawns_attack(pawns: u64, color: Color, t: int) -> bool {
    exists|s: int| #[trigger] has_bit(pawns, s) && pawn_attack(color, s, t)
}

/// A square of a moved board came from a square of the board.
pub proof fn lemma_moved_from_exists(x: u64, t: int, df: int, dr: int)
    requires
        -1 <= df <= 1,
        -1 <= dr <= 1,
    ensures
        moved_from(x, t, df, dr) == exists|s: int| #[trigger] has_bit(x, s) && step_to(s, t, df, dr),
{
    if moved_from(x, t, df, dr) {
        lemma_offset(t, df, dr);
        let s = t - 8 * dr - df;
        assert(has_bit(x, s) && step_to(s, t, df, dr));
    }
    if exists|s: int| #[trigger] has_bit(x, s) && step_to(s, t, df, dr) {
        let s = choose|s: int| #[trigger] has_bit(x, s) && step_to(s, t, df, dr);
        lemma_offset(t, df, dr);
        lemma_square_coords(s, t - 8 * dr - df);
    }
}

pub fn pawn_attacks(sq: Square, color: Color) -> (r: Bitboard)
    ensures
        forall|t: int| #[trigger] has_bit(r@, t) == pawn_attack(color, sq as int, t),
{
    proof {
        lemma_masks();
        lemma_bit_ops();
    }
    let bit = sq.bb();
    match color {
        Color::White => bit.shift_up_left().or(bit.shift_up_right()),
        Color::Black => bit.shift_down_left().or(bit.shift_down_right()),
    }
}

pub fn alfil_attacks(sq: Square) -> (r: Bitboard)
    ensures
        forall|t: int| #[trigger] has_bit(r@, t) == alfil_attack(sq as int, t),
{
    let ghost s = sq as int;
    let bit = sq.bb();
    let p0 = bit.shift_up_left();
    proof {
        lemma_first_step(s, -1, 1);
    }
    let q0 = p0.shift_up_left();
    proof {
        lemma_steps(p0@, s, -1, 1, -1, 1);
    }
    let p1 = bit.shift_up_right();
    proof {
        lemma_first_step(s, 1, 1);
    }
    let q1 = p1.shift_up_right();
    proof {
        lemma_steps(p1@, s, 1, 1, 1, 1);
    }
    let p2 = bit.shift_down_left();
    proof {
        lemma_first_step(s, -1, -1);
    }
    let q2 = p2.shift_down_left();
    proof {
        lemma_steps(p2@, s, -1, -1, -1, -1);
    }
    let p3 = bit.shift_down_right();
    proof {
        lemma_first_step(s, 1, -1);
    }
    let q3 = p3.shift_down_right();
    proof {
        lemma_steps(p3@, s, 1, -1, 1, -1);
    }
    let bb = q0;
    let bb = bb.or(q1);
    let bb = bb.or(q2);
    let bb = bb.or(q3);
    proof {
        lemma_bit_ops();
    }
    bb
}

pub fn ferz_attacks(sq: Square) -> (r: Bitboard)
    ensures
        forall|t: int| #[trigger] has_bit(r@, t) == ferz_attack(sq as int, t),
{
    let ghost s = sq as int;
    let bit = sq.bb();
    let p0 = bit.shift_up_left();
    proof {
        lemma_first_step(s, -1, 1);
    }
    let p1 = bit.shift_up_right();
    proof {
        lemma_first_step(s, 1, 1);
    }
    let p2 = bit.shift_down_left();
    proof {
        lemma_first_step(s, -1, -1);
    }
    let p3 = bit.shift_down_right();
    proof {
        lemma_first_step(s, 1, -1);
    }
    let bb = p0;
    let bb = bb.or(p1);
    let bb = bb.or(p2);
    let bb = bb.or(p3);
    proof {
        lemma_bit_ops();
    }
    bb
}

pub fn knight_attacks(sq: Square) -> (r: Bitboard)
    ensures
        forall|t: int| #[trigger] has_bit(r@, t) == knight_attack(sq as int, t),
{
    let ghost s = sq as int;
    let bit = sq.bb();
    let p0 = bit.shift_up();
    proof {
        lemma_first_step(s, 0, 1);
    }
    let q0 = p0.shift_up_left();
    proof {
        lemma_steps(p0@, s, 0, 1, -1, 1);
    }
    let p1 = bit.shift_up();
    proof {
        lemma_first_step(s, 0, 1);
    }
    let q1 = p1.shift_up_right();
    proof {
        lemma_steps(p1@, s, 0, 1, 1, 1);
    }
    let p2 = bit.shift_down();
    proof {
        lemma_first_step(s, 0, -1);
    }
    let q2 = p2.shift_down_left();
    proof {
        lemma_steps(p2@, s, 0, -1, -1, -1);
    }
    let p3 = bit.shift_down();
    proof {
        lemma_first_step(s, 0, -1);
    }
    let q3 = p3.shift_down_right();
    proof {
        lemma_steps(p3@, s, 0, -1, 1, -1);
    }
    let p4 = bit.shift_up_left();
    proof {
        lemma_first_step(s, -1, 1);
    }
    let q4 = p4.shift_left();
    proof {
        lemma_steps(p4@, s, -1, 1, -1, 0);
    }
    let p5 = bit.shift_down_left();
    proof {
        lemma_first_step(s, -1, -1);
    }
    let q5 = p5.shift_left();
    proof {
        lemma_steps(p5@, s, -1, -1, -1, 0);
    }
    let p6 = bit.shift_up_right();
    proof {
        lemma_first_step(s, 1, 1);
    }
    let q6 = p6.shift_right();
    proof {
        lemma_steps(p6@, s, 1, 1, 1, 0);
    }
    let p7 = bit.shift_down_right();
    proof {
        lemma_first_step(s, 1, -1);
    }
    let q7 = p7.shift_right();
    proof {
        lemma_steps(p7@, s, 1, -1, 1, 0);
    }
    let bb = q0;
    let bb = bb.or(q1);
    let bb = bb.or(q2);
    let bb = bb.or(q3);
    let bb = bb.or(q4);
    let bb = bb.or(q5);
    let bb = bb.or(q6);
    let bb = bb.or(q7);
    proof {
        lemma_bit_ops();
    }
    bb
}

pub fn king_attacks(sq: Square) -> (r: Bitboard)
    ensures
        forall|t: int| #[trigger] has_bit(r@, t) == king_attack(sq as int, t),
{
    let ghost s = sq as int;
    let bit = sq.bb();
    let p0 = bit.shift_up();
    proof {
        lemma_first_step(s, 0, 1);
    }
    let p1 = bit.shift_down();
    proof {
        lemma_first_step(s, 0, -1);
    }
    let p2 = bit.shift_left();
    proof {
        lemma_first_step(s, -1, 0);
    }
    let p3 = bit.shift_right();
    proof {
        lemma_first_step(s, 1, 0);
    }
    let p4 = bit.shift_up();
    proof {
        lemma_first_step(s, 0, 1);
    }
    let q4 = p4.shift_left();
    proof {
        lemma_steps(p4@, s, 0, 1, -1, 0);
    }
    let p5 = bit.shift_up();
    proof {
        lemma_first_step(s, 0, 1);
    }
    let q5 = p5.shift_right();
    proof {
        lemma_steps(p5@, s, 0, 1, 1, 0);
    }
    let p6 = bit.shift_down();
    proof {
        lemma_first_step(s, 0, -1);
    }
    let q6 = p6.shift_left();
    proof {
        lemma_steps(p6@, s, 0, -1, -1, 0);
    }
    let p7 = bit.shift_down();
    proof {
        lemma_first_step(s, 0, -1);
    }
    let q7 = p7.shift_right();
    proof {
        lemma_steps(p7@, s, 0, -1, 1, 0);
    }
    let bb = p0;
    let bb = bb.or(p1);
    let bb = bb.or(p2);
    let bb = bb.or(p3);
    let bb = bb.or(q4);
    let bb = bb.or(q5);
    let bb = bb.or(q6);
    let bb = bb.or(q7);
    proof {
        lemma_bit_ops();
    }
    bb
}

pub fn rook_pseudo_attacks(sq: Square) -> (r: Bitboard)
    ensures
        forall|t: int| #[trigger] has_bit(r@, t) == rook_line(sq as int, t),
{
    proof {
        lemma_bit_ops();
    }
    let rank = Bitboard::rank_bb(sq.rank());
    let file = Bitboard::file_bb(sq.file());
    let r = rank.xor(file);
    proof {
        assert forall|t: int| #[trigger] has_bit(r@, t) == rook_line(sq as int, t) by {
            if 0 <= t < 64 && rank_of(t) == rank_of(sq as int) && file_of(t) == file_of(sq as int) {
                assert(t == sq as int);
            }
        }
    }
    r
}

/// `x` is `s` itself or lies in direction `d` from it.
pub open spec fn on_ray(s: int, x: int, d: Direction) -> bool {
    x == s || in_dir(s, x, d)
}

/// One step in direction `d` from a square on the ray, when it stays on the
/// board, reaches the next square of the ray; every square of the ray at that
/// distance is that square.
pub proof fn lemma_ray_step(s: int, cur: int, n: int, d: Direction)
    requires
        0 <= s < 64,
        on_ray(s, cur, d),
        0 <= cur < 64,
        0 <= n < 64,
        n == cur + d.spec_offset(),
        !(d == Direction::Left && file_of(cur) == 0),
        !(d == Direction::Right && file_of(cur) == 7),
    ensures
        in_dir(s, n, d),
        dist(s, n, d) == dist(s, cur, d) + 1,
        forall|t: int| #![trigger in_dir(s, t, d)] in_dir(s, t, d) && dist(s, t, d) == dist(s, n, d) ==> t == n,
{
    match d {
        Direction::Up => lemma_offset(n, 0, 1),
        Direction::Down => lemma_offset(n, 0, -1),
        Direction::Left => lemma_offset(n, -1, 0),
        Direction::Right => lemma_offset(n, 1, 0),
    }
    assert forall|t: int| #![trigger in_dir(s, t, d)] in_dir(s, t, d) && dist(s, t, d) == dist(s, n, d) implies t == n by {
        lemma_square_coords(t, n);
    }
}

/// Where no step in direction `d` from `cur` stays on the board, no square of
/// the ray lies further than `cur`.
pub proof fn lemma_ray_edge(s: int, cur: int, d: Direction)
    requires
        0 <= s < 64,
        on_ray(s, cur, d),
        0 <= cur < 64,
        !(0 <= cur + d.spec_offset() < 64) || (d == Direction::Left && file_of(cur) == 0) || (d
            == Direction::Right && file_of(cur) == 7),
    ensures
        forall|t: int| #![trigger in_dir(s, t, d)] in_dir(s, t, d) ==> dist(s, t, d) <= dist(s, cur, d),
{
    assert(cur == 8 * rank_of(cur) + file_of(cur));
}

/// The squares that a rook on `sq` reaches in direction `dir`, stopping at
/// the first square of `occ`, which it includes.
fn ray_attacks(sq: Square, occ: Bitboard, dir: Direction) -> (r: Bitboard)
    ensures
        forall|t: int| #[trigger] has_bit(r@, t) == ray_reach(sq as int, t, occ@, dir),
{
    let ghost s = sq as int;
    let mut acc = Bitboard::from_raw(0);
    let mut cur = sq;
    proof {
        lemma_bit_ops();
    }
    loop
        invariant
            s == sq as int,
            on_ray(s, cur as int, dir),
            0 <= dist(s, cur as int, dir) < 8,
            forall|t: int| #[trigger] has_bit(acc@, t) == (in_dir(s, t, dir) && dist(s, t, dir) <= dist(s, cur as int, dir)),
            forall|y: int| #![trigger in_dir(s, y, dir)] in_dir(s, y, dir) && dist(s, y, dir) <= dist(s, cur as int, dir) ==> !has_bit(occ@, y),
        decreases 8 - dist(s, cur as int, dir),
    {
        match cur.shift_checked(dir) {
            None => {
                proof {
                    lemma_ray_edge(s, cur as int, dir);
                    assert forall|t: int| #[trigger] has_bit(acc@, t) == ray_reach(s, t, occ@, dir) by {
                    }
                }
                return acc;
            },
            Some(n) => {
                proof {
                    lemma_ray_step(s, cur as int, n as int, dir);
                }
                acc.set_sq(n);
                if occ.has_sq(n) {
                    proof {
                        assert forall|t: int| #[trigger] has_bit(acc@, t) == ray_reach(s, t, occ@, dir) by {
                            if in_dir(s, t, dir) && dist(s, t, dir) > dist(s, n as int, dir) {
                                assert(in_dir(s, n as int, dir) && has_bit(occ@, n as int));
                            }
                        }
                    }
                    return acc;
                }
                cur = n;
            },
        }
    }
}

pub fn rook_attacks(sq: Square, occ: Bitboard) -> (r: Bitboard)
    ensures
        forall|t: int| #[trigger] has_bit(r@, t) == rook_attack(sq as int, t, occ@),
{
    let up = ray_attacks(sq, occ, Direction::Up);
    let down = ray_attacks(sq, occ, Direction::Down);
    let left = ray_attacks(sq, occ, Direction::Left);
    let right = ray_attacks(sq, occ, Direction::Right);
    proof {
        lemma_bit_ops();
    }
    up.or(down).or(left).or(right)
}

pub fn attacks(piece: Piece, sq: Square, occ: Bitboard) -> (r: Bitboard)
    ensures
        forall|t: int| #[trigger] has_bit(r@, t) == piece_attack(piece, sq as int, t, occ@),
{
    match piece.piece_type() {
        PieceType::Pawn => pawn_attacks(sq, piece.color()),
        PieceType::Alfil => alfil_attacks(sq),
        PieceType::Ferz => ferz_attacks(sq),
        PieceType::Knight => knight_attacks(sq),
        PieceType::Rook => rook_attacks(sq, occ),
        PieceType::King => king_attacks(sq),
    }
}

pub fn pseudo_attacks(piece: Piece, sq: Square) -> (r: Bitboard)
    ensures
        forall|t: int| #[trigger] has_bit(r@, t) == piece_pseudo_attack(piece, sq as int, t),
{
    match piece.piece_type() {
        PieceType::Pawn => pawn_attacks(sq, piece.color()),
        PieceType::Alfil => alfil_attacks(sq),
        PieceType::Ferz => ferz_attacks(sq),
        PieceType::Knight => knight_attacks(sq),
        PieceType::Rook => rook_pseudo_attacks(sq),
        PieceType::King => king_attacks(sq),
    }
}

pub fn white_pawn_attacks_setwise(pawns: Bitboard) -> (r: Bitboard)
    ensures
        forall|t: int| #[trigger] has_bit(r@, t) == pawns_attack(pawns@, Color::White, t),
{
    proof {
        lemma_bit_ops();
        assert forall|t: int| #[trigger] pawns_attack(pawns@, Color::White, t) == (moved_from(pawns@, t, -1, forward(Color::White)) || moved_from(pawns@, t, 1, forward(Color::White))) by {
            lemma_moved_from_exists(pawns@, t, -1, forward(Color::White));
            lemma_moved_from_exists(pawns@, t, 1, forward(Color::White));
        }
    }
    let attacks = pawns.shift_up_left();
    let attacks = attacks.or(pawns.shift_up_right());
    attacks
}

pub fn black_pawn_attacks_setwise(pawns: Bitboard) -> (r: Bitboard)
    ensures
        forall|t: int| #[trigger] has_bit(r@, t) == pawns_attack(pawns@, Color::Black, t),
{
    proof {
        lemma_bit_ops();
        assert forall|t: int| #[trigger] pawns_attack(pawns@, Color::Black, t) == (moved_from(pawns@, t, -1, forward(Color::Black)) || moved_from(pawns@, t, 1, forward(Color::Black))) by {
            lemma_moved_from_exists(pawns@, t, -1, forward(Color::Black));
            lemma_moved_from_exists(pawns@, t, 1, forward(Color::Black));
        }
    }
    let attacks = pawns.shift_down_left();
    let attacks = attacks.or(pawns.shift_down_right());
    attacks
}

pub fn pawn_attacks_setwise(pawns: Bitboard, color: Color) -> (r: Bitboard)
    ensures
        forall|t: int| #[trigger] has_bit(r@, t) == pawns_attack(pawns@, color, t),
{
    match color {
        Color::White => white_pawn_attacks_setwise(pawns),
        Color::Black => black_pawn_attacks_setwise(pawns),
    }
}

} // verus!
