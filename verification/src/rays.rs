//! The squares between two squares on a line, and past one from the other.
use crate::attacks::{
    dist, in_dir, lemma_square_coords, ray_reach, rook_attack, rook_attacks, rook_line,
    rook_pseudo_attacks,
};
use crate::bitboard::{has_bit, lemma_bit_ops, lemma_masks, single, Bitboard};
use crate::core_types::{Direction, Square};
use vstd::prelude::*;

verus! {

/// `x` lies strictly between `a` and `b`, which share a rank or a file, in
/// direction `d` from `a`.
pub open spec fn between_in(a: int, b: int, x: int, d: Direction) -> bool {
    in_dir(a, b, d) && in_dir(a, x, d) && dist(a, x, d) < dist(a, b, d)
}

/// `x` lies strictly between `a` and `b`, which share a rank or a file.
pub open spec fn between(a: int, b: int, x: int) -> bool {
    between_in(a, b, x, Direction::Up) || between_in(a, b, x, Direction::Down) || between_in(
        a,
        b,
        x,
        Direction::Left,
    ) || between_in(a, b, x, Direction::Right)
}

/// `x` lies on the ray from `a` through `b` (which share a rank or a file),
/// beyond `a`: between them, on `b`, or past `b`.
pub open spec fn past(a: int, b: int, x: int) -> bool {
    (in_dir(a, b, Direction::Up) && in_dir(a, x, Direction::Up)) || (in_dir(a, b, Direction::Down)
        && in_dir(a, x, Direction::Down)) || (in_dir(a, b, Direction::Left) && in_dir(
        a,
        x,
        Direction::Left,
    )) || (in_dir(a, b, Direction::Right) && in_dir(a, x, Direction::Right))
}

/// With only square `b` occupied, a rook on `s` reaches `x` in direction `d`
/// unless `b` stands before `x` on that ray.
pub proof fn lemma_reach_single(s: int, x: int, b: int, d: Direction)
    requires
        0 <= b < 64,
    ensures
        ray_reach(s, x, single(b), d) == (in_dir(s, x, d) && !(in_dir(s, b, d) && dist(s, b, d)
            < dist(s, x, d))),
{
    lemma_masks();
    if in_dir(s, b, d) && dist(s, b, d) < dist(s, x, d) {
        assert(has_bit(single(b), b));
    }
}

/// The squares both rooks reach, when each of two aligned squares blocks the
/// other, are those strictly between them.
proof fn lemma_between_point(a: int, b: int, x: int)
    requires
        0 <= a < 64,
        0 <= b < 64,
        rook_line(a, b),
    ensures
        (rook_attack(a, x, single(b)) && rook_attack(b, x, single(a))) == between(a, b, x),
{
    lemma_reach_single(a, x, b, Direction::Up);
    lemma_reach_single(a, x, b, Direction::Down);
    lemma_reach_single(a, x, b, Direction::Left);
    lemma_reach_single(a, x, b, Direction::Right);
    lemma_reach_single(b, x, a, Direction::Up);
    lemma_reach_single(b, x, a, Direction::Down);
    lemma_reach_single(b, x, a, Direction::Left);
    lemma_reach_single(b, x, a, Direction::Right);
    lemma_square_coords(a, b);
}

/// The squares a rook on `b` reaches with `a` blocking, and `b` itself, that
/// lie on a line of `a`, are those past `a` toward `b`.
proof fn lemma_past_point(a: int, b: int, x: int)
    requires
        0 <= a < 64,
        0 <= b < 64,
        rook_line(a, b),
    ensures
        (rook_line(a, x) && (rook_attack(b, x, single(a)) || x == b)) == past(a, b, x),
{
    lemma_reach_single(b, x, a, Direction::Up);
    lemma_reach_single(b, x, a, Direction::Down);
    lemma_reach_single(b, x, a, Direction::Left);
    lemma_reach_single(b, x, a, Direction::Right);
    lemma_square_coords(a, b);
    if 0 <= x < 64 {
        lemma_square_coords(x, b);
        lemma_square_coords(x, a);
    }
}

pub fn ray_between(a: Square, b: Square) -> (r: Bitboard)
    ensures
        forall|x: int| #[trigger] has_bit(r@, x) == between(a as int, b as int, x),
{
    let from_mask = rook_pseudo_attacks(a);
    if a != b && from_mask.has_sq(b) {
        let from_attacks = rook_attacks(a, b.bb());
        let to_attacks = rook_attacks(b, a.bb());
        let r = from_attacks.and(to_attacks);
        proof {
            lemma_bit_ops();
            lemma_masks();
            assert forall|x: int| #[trigger] has_bit(r@, x) == between(a as int, b as int, x) by {
                lemma_between_point(a as int, b as int, x);
            }
        }
        r
    } else {
        proof {
            lemma_bit_ops();
            assert forall|x: int| #[trigger] has_bit(0u64, x) == between(a as int, b as int, x) by {
                lemma_square_coords(a as int, b as int);
            }
        }
        Bitboard::from_raw(0)
    }
}

pub fn ray_past(a: Square, b: Square) -> (r: Bitboard)
    ensures
        forall|x: int| #[trigger] has_bit(r@, x) == past(a as int, b as int, x),
{
    let from_mask = rook_pseudo_attacks(a);
    if a != b && from_mask.has_sq(b) {
        let to_attacks = rook_attacks(b, a.bb()).or(b.bb());
        let r = from_mask.and(to_attacks);
        proof {
            lemma_bit_ops();
            lemma_masks();
            assert forall|x: int| #[trigger] has_bit(r@, x) == past(a as int, b as int, x) by {
                lemma_past_point(a as int, b as int, x);
            }
        }
        r
    } else {
        proof {
            lemma_bit_ops();
            assert forall|x: int| #[trigger] has_bit(0u64, x) == past(a as int, b as int, x) by {
                lemma_square_coords(a as int, b as int);
            }
        }
        Bitboard::from_raw(0)
    }
}

/// Betweenness does not depend on which end one starts from.
pub proof fn lemma_between_symmetric(a: int, b: int, x: int)
    requires
        0 <= a < 64,
        0 <= b < 64,
    ensures
        between(a, b, x) == between(b, a, x),
{
}

/// A rook attacks a square on its rank or file exactly when no square of
/// `occ` stands strictly between them.
pub proof fn lemma_rook_attack_between(s: int, t: int, occ: u64)
    requires
        0 <= s < 64,
    ensures
        rook_attack(s, t, occ) == (rook_line(s, t) && forall|y: int|
            #[trigger] between(s, t, y) ==> !has_bit(occ, y)),
{
    if rook_attack(s, t, occ) {
        assert forall|y: int| #[trigger] between(s, t, y) implies !has_bit(occ, y) by {
            if between(s, t, y) {
                assert(0 <= y < 64);
            }
        }
        if 0 <= t < 64 {
            lemma_square_coords(s, t);
        }
    }
    if rook_line(s, t) && forall|y: int| #[trigger] between(s, t, y) ==> !has_bit(occ, y) {
        lemma_square_coords(s, t);
        assert forall|y: int|
            #![trigger has_bit(occ, y), in_dir(s, y, Direction::Up)]
            in_dir(s, y, Direction::Up) && dist(s, y, Direction::Up) < dist(s, t, Direction::Up)
                && in_dir(s, t, Direction::Up) implies !has_bit(occ, y) by {
            assert(between(s, t, y));
        }
        assert forall|y: int|
            #![trigger has_bit(occ, y), in_dir(s, y, Direction::Down)]
            in_dir(s, y, Direction::Down) && dist(s, y, Direction::Down) < dist(s, t, Direction::Down)
                && in_dir(s, t, Direction::Down) implies !has_bit(occ, y) by {
            assert(between(s, t, y));
        }
        assert forall|y: int|
            #![trigger has_bit(occ, y), in_dir(s, y, Direction::Left)]
            in_dir(s, y, Direction::Left) && dist(s, y, Direction::Left) < dist(s, t, Direction::Left)
                && in_dir(s, t, Direction::Left) implies !has_bit(occ, y) by {
            assert(between(s, t, y));
        }
        assert forall|y: int|
            #![trigger has_bit(occ, y), in_dir(s, y, Direction::Right)]
            in_dir(s, y, Direction::Right) && dist(s, y, Direction::Right) < dist(s, t, Direction::Right)
                && in_dir(s, t, Direction::Right) implies !has_bit(occ, y) by {
            assert(between(s, t, y));
        }
    }
}

/// A rook on `s` attacks `t` exactly when a rook on `t` attacks `s`.
pub proof fn lemma_rook_attack_symmetric(s: int, t: int, occ: u64)
    requires
        0 <= s < 64,
        0 <= t < 64,
    ensures
        rook_attack(s, t, occ) == rook_attack(t, s, occ),
{
    lemma_rook_attack_between(s, t, occ);
    lemma_rook_attack_between(t, s, occ);
    if rook_attack(s, t, occ) {
        assert forall|y: int| #[trigger] between(t, s, y) implies !has_bit(occ, y) by {
            lemma_between_symmetric(s, t, y);
        }
    }
    if rook_attack(t, s, occ) {
        assert forall|y: int| #[trigger] between(s, t, y) implies !has_bit(occ, y) by {
            lemma_between_symmetric(s, t, y);
        }
    }
}

} // verus!
